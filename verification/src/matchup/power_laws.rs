//! What the rules of moves, abilities and items make of a move, told by what
//! the move would be without them.

use crate::matchup::pair::Duelists;
use crate::matchup::power::{
    attacker_ability_factor, bulk_factor, defender_ability_factor, item_factor,
    in_a_pinch, normalized_choice, normalized_power, normalized_type, plain_power, recolor_factor,
    ruled_category, ruled_power, ruled_type,
};
use crate::ratio::product;
use crate::state::{
    Abilities, Choice, Choices, Items, MoveCategory, Pokemon, PokemonStatus, PokemonType, Side,
    Weather,
};
use vstd::prelude::*;

verus! {

/// A move as it hits in a pair.
pub open spec fn as_it_hits(p: Duelists, c: Choice) -> Choice {
    normalized_choice(
        p.state,
        p.attacking_side,
        p.attacker,
        p.defending_side,
        p.defender,
        c,
        p.attacker_active,
    )
}

/// The power of a move as it hits in a pair.
pub open spec fn power(p: Duelists, c: Choice) -> (nat, nat) {
    normalized_power(
        p.state,
        p.attacking_side,
        p.attacker,
        p.defending_side,
        p.defender,
        c,
        p.attacker_active,
    )
}

/// Whether a fraction is `n / d` times another.
pub open spec fn times_as(a: (nat, nat), b: (nat, nat), n: nat, d: nat) -> bool {
    a.0 * b.1 * d == b.0 * a.1 * n
}

/// The pair with another attacker.
pub open spec fn with_attacker(p: Duelists, attacker: Pokemon) -> Duelists {
    Duelists { attacker, ..p }
}

/// The pair with another defender.
pub open spec fn with_defender(p: Duelists, defender: Pokemon) -> Duelists {
    Duelists { defender, ..p }
}

/// The hit of a move keeps what the move is, and the power that it has.
pub proof fn lemma_a_hit_keeps_its_move(p: Duelists, c: Choice)
    requires
        power(p, c).0 <= u64::MAX,
        power(p, c).1 <= u64::MAX,
    ensures
        ({
            let hit = as_it_hits(p, c);
            &&& hit.move_id == c.move_id
            &&& hit.priority == c.priority
            &&& hit.flags == c.flags
            &&& hit.multi_hit == c.multi_hit
            &&& hit.accuracy == c.accuracy
            &&& hit.target == c.target
            &&& hit.first_move
            &&& hit.base_power.num == power(p, c).0
            &&& hit.base_power.den == power(p, c).1
        }),
{
}

proof fn lemma_one_factor(x: (nat, nat), f: (nat, nat), g: (nat, nat))
    ensures
        times_as(product(x, f), product(x, g), f.0 * g.1, f.1 * g.0),
{
    assert((x.0 * f.0) * (x.1 * g.1) * (f.1 * g.0) == (x.0 * g.0) * (x.1 * f.1) * (f.0 * g.1))
        by (nonlinear_arith);
}

proof fn lemma_and_another(a: (nat, nat), b: (nat, nat), f: (nat, nat), n: nat, d: nat)
    requires
        times_as(a, b, n, d),
    ensures
        times_as(product(a, f), product(b, f), n, d),
{
    let x = a.0 * b.1 * d;
    let y = b.0 * a.1 * n;
    assert((a.0 * f.0) * (b.1 * f.1) * d == (a.0 * b.1 * d) * (f.0 * f.1)) by (nonlinear_arith);
    assert((b.0 * f.0) * (a.1 * f.1) * n == (b.0 * a.1 * n) * (f.0 * f.1)) by (nonlinear_arith);
}

proof fn lemma_one_of_three(
    x: (nat, nat),
    f: (nat, nat),
    g: (nat, nat),
    rest: ((nat, nat), (nat, nat), (nat, nat)),
)
    ensures
        times_as(product(x, f), product(x, g), f.0 * g.1, f.1 * g.0),
        times_as(
            product(product(x, f), rest.0),
            product(product(x, g), rest.0),
            f.0 * g.1,
            f.1 * g.0,
        ),
        times_as(
            product(product(product(x, f), rest.0), rest.1),
            product(product(product(x, g), rest.0), rest.1),
            f.0 * g.1,
            f.1 * g.0,
        ),
        times_as(
            product(product(product(product(x, f), rest.0), rest.1), rest.2),
            product(product(product(product(x, g), rest.0), rest.1), rest.2),
            f.0 * g.1,
            f.1 * g.0,
        ),
{
    let n = f.0 * g.1;
    let d = f.1 * g.0;
    lemma_one_factor(x, f, g);
    let a = product(x, f);
    let b = product(x, g);
    lemma_and_another(a, b, rest.0, n, d);
    lemma_and_another(product(a, rest.0), product(b, rest.0), rest.1, n, d);
    lemma_and_another(
        product(product(a, rest.0), rest.1),
        product(product(b, rest.0), rest.1),
        rest.2,
        n,
        d,
    );
}

/// What an item of the attacker adds to the power, over none: half for a
/// choice item in its category, three tenths for a life orb, a fifth for an
/// expert belt where the hit is super effective, a tenth for the band and
/// the glasses in their category. Moves whose own rule looks at the item are
/// left out.
#[verifier::rlimit(40)]
pub proof fn lemma_what_items_add(p: Duelists, c: Choice)
    requires
        c.move_id != Choices::ACROBATICS,
        c.move_id != Choices::IVYCUDGEL,
    ensures
        ({
            let a = power(p, c);
            let bare = power(with_attacker(p, Pokemon { item: Items::NONE, ..p.attacker }), c);
            let hit = as_it_hits(p, c);
            let physical = hit.category == MoveCategory::Physical;
            let special = hit.category == MoveCategory::Special;
            let hard = p.defender.taken(hit.move_type) > 4;
            let item = p.attacker.item;
            &&& item == Items::CHOICEBAND ==> times_as(a, bare, if physical { 3nat } else { 2 }, 2)
            &&& item == Items::CHOICESPECS ==> times_as(a, bare, if special { 3nat } else { 2 }, 2)
            &&& item == Items::LIFEORB && (physical || special) ==> times_as(a, bare, 13, 10)
            &&& item == Items::EXPERTBELT ==> times_as(a, bare, if hard { 6nat } else { 5 }, 5)
            &&& item == Items::MUSCLEBAND ==> times_as(a, bare, if physical { 11nat } else { 10 }, 10)
            &&& item == Items::WISEGLASSES ==> times_as(a, bare, if special { 11nat } else { 10 }, 10)
            &&& item == Items::CHOICESCARF || item == Items::LOADEDDICE || item
                == Items::HEAVYDUTYBOOTS ==> times_as(a, bare, 1, 1)
        }),
{
    let q = with_attacker(p, Pokemon { item: Items::NONE, ..p.attacker });
    let t = normalized_type(p.state, p.attacker, c);
    let category = ruled_category(p.attacker, c);
    let plain = plain_power(
        p.state,
        p.attacking_side,
        p.attacker,
        p.defending_side,
        p.defender,
        c,
        p.attacker_active,
    );
    let x = product(
        product(
            plain,
            attacker_ability_factor(
                p.attacking_side,
                p.attacker,
                p.defender,
                c,
                t,
                category,
                plain,
            ),
        ),
        defender_ability_factor(p.attacker, p.defender, c, t, category),
    );
    let bulk = bulk_factor(p.defender, category);
    let f = item_factor(p.attacker, p.defender, t, category);
    let g = item_factor(q.attacker, p.defender, t, category);
    lemma_one_of_three(x, f, g, (bulk, bulk, bulk));
    assert(power(p, c) == product(product(x, f), bulk));
    assert(power(q, c) == product(product(x, g), bulk));
    lemma_same_ratio(power(p, c), power(q, c), f, g);
}

proof fn lemma_same_ratio(a: (nat, nat), b: (nat, nat), f: (nat, nat), g: (nat, nat))
    requires
        times_as(a, b, f.0 * g.1, f.1 * g.0),
        g == (1nat, 1nat),
    ensures
        times_as(a, b, f.0, f.1),
{
    assert(f.0 * 1 == f.0 && f.1 * 1 == f.1);
}

/// What an item of the defender takes from the power, over none: a third by
/// eviolite, and by an assault vest of special moves.
#[verifier::rlimit(40)]
pub proof fn lemma_what_defensive_items_take(p: Duelists, c: Choice)
    requires
        c.move_id != Choices::KNOCKOFF,
    ensures
        ({
            let a = power(p, c);
            let bare = power(with_defender(p, Pokemon { item: Items::NONE, ..p.defender }), c);
            let special = as_it_hits(p, c).category == MoveCategory::Special;
            let item = p.defender.item;
            &&& item == Items::EVIOLITE ==> times_as(a, bare, 2, 3)
            &&& item == Items::ASSAULTVEST ==> times_as(a, bare, if special { 2nat } else { 3 }, 3)
            &&& item != Items::EVIOLITE && item != Items::ASSAULTVEST ==> times_as(a, bare, 1, 1)
        }),
{
    let q = with_defender(p, Pokemon { item: Items::NONE, ..p.defender });
    let t = normalized_type(p.state, p.attacker, c);
    let category = ruled_category(p.attacker, c);
    let plain = plain_power(
        p.state,
        p.attacking_side,
        p.attacker,
        p.defending_side,
        p.defender,
        c,
        p.attacker_active,
    );
    let x = product(
        product(
            product(
                plain,
                attacker_ability_factor(
                    p.attacking_side,
                    p.attacker,
                    p.defender,
                    c,
                    t,
                    category,
                    plain,
                ),
            ),
            defender_ability_factor(p.attacker, p.defender, c, t, category),
        ),
        item_factor(p.attacker, p.defender, t, category),
    );
    let f = bulk_factor(p.defender, category);
    let g = bulk_factor(q.defender, category);
    lemma_one_factor(x, f, g);
    assert(power(p, c) == product(x, f));
    assert(power(q, c) == product(x, g));
    lemma_same_ratio(power(p, c), power(q, c), f, g);
}

/// Whether an ability turns a normal move into another type.
pub open spec fn turns_normal_moves(ability: Abilities) -> bool {
    ability == Abilities::PIXILATE || ability == Abilities::REFRIGERATE || ability
        == Abilities::AERILATE || ability == Abilities::GALVANIZE || ability
        == Abilities::LIQUIDVOICE
}

/// What the attacker's ability makes of the power is one factor of it.
proof fn lemma_ability_is_a_factor(p: Duelists, c: Choice)
    requires
        !turns_normal_moves(p.attacker.ability),
        p.defender.ability != Abilities::TABLETSOFRUIN,
        p.defender.ability != Abilities::VESSELOFRUIN,
    ensures
        ({
            let q = with_attacker(p, Pokemon { ability: Abilities::NONE, ..p.attacker });
            let f = attacker_ability_factor(
                p.attacking_side,
                p.attacker,
                p.defender,
                c,
                as_it_hits(p, c).move_type,
                as_it_hits(p, c).category,
                ruled_power(
                    p.state,
                    p.attacking_side,
                    p.attacker,
                    p.defending_side,
                    p.defender,
                    c,
                    p.attacker_active,
                ),
            );
            times_as(power(p, c), power(q, c), f.0, f.1)
        }),
{
    let q = with_attacker(p, Pokemon { ability: Abilities::NONE, ..p.attacker });
    let t = normalized_type(p.state, p.attacker, c);
    let category = ruled_category(p.attacker, c);
    let plain = ruled_power(
        p.state,
        p.attacking_side,
        p.attacker,
        p.defending_side,
        p.defender,
        c,
        p.attacker_active,
    );
    lemma_same_plain_power(p, c);
    let f = attacker_ability_factor(
        p.attacking_side,
        p.attacker,
        p.defender,
        c,
        t,
        category,
        plain,
    );
    let g: (nat, nat) = (1, 1);
    let foe = defender_ability_factor(p.attacker, p.defender, c, t, category);
    let item = item_factor(p.attacker, p.defender, t, category);
    let bulk = bulk_factor(p.defender, category);
    lemma_other_factors_stay(p, c);
    lemma_one_of_three(plain, f, g, (foe, item, bulk));
    lemma_same_ratio(power(p, c), power(q, c), f, g);
}

proof fn lemma_other_factors_stay(p: Duelists, c: Choice)
    requires
        !turns_normal_moves(p.attacker.ability),
        p.defender.ability != Abilities::TABLETSOFRUIN,
        p.defender.ability != Abilities::VESSELOFRUIN,
    ensures
        ({
            let bare = Pokemon { ability: Abilities::NONE, ..p.attacker };
            let t = normalized_type(p.state, p.attacker, c);
            let category = ruled_category(p.attacker, c);
            &&& normalized_type(p.state, bare, c) == t
            &&& ruled_category(bare, c) == category
            &&& defender_ability_factor(bare, p.defender, c, t, category)
                == defender_ability_factor(p.attacker, p.defender, c, t, category)
            &&& item_factor(bare, p.defender, t, category) == item_factor(
                p.attacker,
                p.defender,
                t,
                category,
            )
            &&& forall|x: (nat, nat)| #[trigger]
                attacker_ability_factor(p.attacking_side, bare, p.defender, c, t, category, x) == (
                1nat,
                1nat,
            )
        }),
{
}

/// What an ability of the attacker adds to the power, over none.
pub proof fn lemma_what_abilities_add(p: Duelists, c: Choice)
    requires
        !turns_normal_moves(p.attacker.ability),
        p.defender.ability != Abilities::TABLETSOFRUIN,
        p.defender.ability != Abilities::VESSELOFRUIN,
    ensures
        ({
            let a = power(p, c);
            let bare = power(with_attacker(p, Pokemon { ability: Abilities::NONE, ..p.attacker }), c);
            let plain = ruled_power(
                p.state,
                p.attacking_side,
                p.attacker,
                p.defending_side,
                p.defender,
                c,
                p.attacker_active,
            );
            let hit = as_it_hits(p, c);
            let physical = hit.category == MoveCategory::Physical;
            let special = hit.category == MoveCategory::Special;
            let weak = p.attacker.hp * 3 <= if p.attacker.maxhp < 1 {
                1
            } else {
                p.attacker.maxhp as int
            };
            let own = p.attacker.types.0 == hit.move_type || p.attacker.types.1 == hit.move_type;
            let ability = p.attacker.ability;
            &&& ability == Abilities::TECHNICIAN ==> times_as(
                a,
                bare,
                if plain.0 <= 60 * plain.1 { 3nat } else { 2 },
                2,
            )
            &&& ability == Abilities::IRONFIST ==> times_as(
                a,
                bare,
                if c.flags.punch { 6nat } else { 5 },
                5,
            )
            &&& ability == Abilities::STRONGJAW ==> times_as(
                a,
                bare,
                if c.flags.bite { 3nat } else { 2 },
                2,
            )
            &&& ability == Abilities::SHARPNESS ==> times_as(
                a,
                bare,
                if c.flags.slicing { 3nat } else { 2 },
                2,
            )
            &&& ability == Abilities::MEGALAUNCHER ==> times_as(
                a,
                bare,
                if c.flags.pulse { 3nat } else { 2 },
                2,
            )
            &&& ability == Abilities::TOUGHCLAWS ==> times_as(
                a,
                bare,
                if c.flags.contact { 13nat } else { 10 },
                10,
            )
            &&& ability == Abilities::TINTEDLENS ==> times_as(
                a,
                bare,
                if p.defender.taken(hit.move_type) < 4 { 2nat } else { 1 },
                1,
            )
            &&& ability == Abilities::HUGEPOWER || ability == Abilities::PUREPOWER ==> times_as(
                a,
                bare,
                if physical { 2nat } else { 1 },
                1,
            )
            &&& ability == Abilities::GUTS ==> times_as(
                a,
                bare,
                if physical && p.attacker.status != PokemonStatus::NONE { 3nat } else { 1 },
                1,
            )
            &&& ability == Abilities::ADAPTABILITY ==> times_as(a, bare, if own { 4nat } else { 3 }, 3)
            &&& ability == Abilities::SUPREMEOVERLORD ==> times_as(
                a,
                bare,
                10 + fallen(p.attacking_side, 6).len(),
                10,
            )
            &&& ability == Abilities::SWORDOFRUIN ==> times_as(
                a,
                bare,
                if physical { 4nat } else { 3 },
                3,
            )
            &&& ability == Abilities::BEADSOFRUIN ==> times_as(
                a,
                bare,
                if special { 4nat } else { 3 },
                3,
            )
            &&& ability == Abilities::BLAZE ==> times_as(
                a,
                bare,
                if weak && hit.move_type == PokemonType::FIRE { 3nat } else { 2 },
                2,
            )
            &&& ability == Abilities::TORRENT ==> times_as(
                a,
                bare,
                if weak && hit.move_type == PokemonType::WATER { 3nat } else { 2 },
                2,
            )
            &&& ability == Abilities::OVERGROW ==> times_as(
                a,
                bare,
                if weak && hit.move_type == PokemonType::GRASS { 3nat } else { 2 },
                2,
            )
            &&& ability == Abilities::SWARM ==> times_as(
                a,
                bare,
                if weak && hit.move_type == PokemonType::BUG { 3nat } else { 2 },
                2,
            )
            &&& ability == Abilities::LEVITATE || ability == Abilities::MOLDBREAKER || ability
                == Abilities::MULTISCALE || ability == Abilities::SKILLLINK ==> times_as(
                a,
                bare,
                1,
                1,
            )
        }),
{
    lemma_ability_is_a_factor(p, c);
    lemma_fallen(p.attacking_side, 6);
    lemma_pinch(p.attacker);
    lemma_as_much(
        power(p, c),
        power(with_attacker(p, Pokemon { ability: Abilities::NONE, ..p.attacker }), c),
    );
}

proof fn lemma_as_much(a: (nat, nat), b: (nat, nat))
    ensures
        times_as(a, b, 1, 1) ==> times_as(a, b, 2, 2) && times_as(a, b, 3, 3) && times_as(a, b, 4, 4)
            && times_as(a, b, 5, 5) && times_as(a, b, 10, 10),
{
    let x = a.0 * b.1;
    let y = b.0 * a.1;
    assert(x * 1 == y * 1 ==> x * 2 == y * 2 && x * 3 == y * 3 && x * 4 == y * 4 && x * 5 == y * 5
        && x * 10 == y * 10);
}

proof fn lemma_same_plain_power(p: Duelists, c: Choice)
    requires
        !turns_normal_moves(p.attacker.ability),
    ensures
        ({
            let q = with_attacker(p, Pokemon { ability: Abilities::NONE, ..p.attacker });
            let ruled = ruled_power(
                p.state,
                p.attacking_side,
                p.attacker,
                p.defending_side,
                p.defender,
                c,
                p.attacker_active,
            );
            &&& plain_power(
                p.state,
                p.attacking_side,
                p.attacker,
                p.defending_side,
                p.defender,
                c,
                p.attacker_active,
            ) == ruled
            &&& plain_power(
                q.state,
                q.attacking_side,
                q.attacker,
                q.defending_side,
                q.defender,
                c,
                q.attacker_active,
            ) == ruled
        }),
{
    let q = with_attacker(p, Pokemon { ability: Abilities::NONE, ..p.attacker });
    let ruled = ruled_power(
        p.state,
        p.attacking_side,
        p.attacker,
        p.defending_side,
        p.defender,
        c,
        p.attacker_active,
    );
    assert(ruled_power(
        q.state,
        q.attacking_side,
        q.attacker,
        q.defending_side,
        q.defender,
        c,
        q.attacker_active,
    ) == ruled);
    assert(recolor_factor(p.attacker, ruled_type(p.state, p.attacker, c)) == (1nat, 1nat));
    assert(recolor_factor(q.attacker, ruled_type(q.state, q.attacker, c)) == (1nat, 1nat));
    assert(ruled.0 * 1 == ruled.0 && ruled.1 * 1 == ruled.1);
}

proof fn lemma_pinch(p: Pokemon)
    ensures
        in_a_pinch(p) == (p.hp * 3 <= if p.maxhp < 1 {
            1
        } else {
            p.maxhp as int
        }),
{
}

/// What an ability of the defender makes of the power, over none.
#[verifier::rlimit(40)]
pub proof fn lemma_what_defensive_abilities_take(p: Duelists, c: Choice)
    ensures
        ({
            let a = power(p, c);
            let bare = power(with_defender(p, Pokemon { ability: Abilities::NONE, ..p.defender }), c);
            let hit = as_it_hits(p, c);
            let t = hit.move_type;
            let physical = hit.category == MoveCategory::Physical;
            let special = hit.category == MoveCategory::Special;
            let hard = p.defender.taken(t) > 4;
            let full = p.defender.hp == p.defender.maxhp;
            let ability = p.defender.ability;
            let own = p.attacker.ability;
            &&& ability == Abilities::FURCOAT ==> times_as(a, bare, if physical { 1nat } else { 2 }, 2)
            &&& ability == Abilities::ICESCALES ==> times_as(a, bare, if special { 1nat } else { 2 }, 2)
            &&& ability == Abilities::THICKFAT ==> times_as(
                a,
                bare,
                if t == PokemonType::FIRE || t == PokemonType::ICE { 1nat } else { 2 },
                2,
            )
            &&& ability == Abilities::HEATPROOF ==> times_as(
                a,
                bare,
                if t == PokemonType::FIRE { 1nat } else { 2 },
                2,
            )
            &&& ability == Abilities::FLUFFY && c.flags.contact ==> times_as(a, bare, 1, 2)
            &&& ability == Abilities::FLUFFY && !c.flags.contact ==> times_as(
                a,
                bare,
                if t == PokemonType::FIRE { 2nat } else { 1 },
                1,
            )
            &&& ability == Abilities::MULTISCALE || ability == Abilities::SHADOWSHIELD ==> times_as(
                a,
                bare,
                if full { 1nat } else { 2 },
                2,
            )
            &&& ability == Abilities::FILTER || ability == Abilities::SOLIDROCK || ability
                == Abilities::PRISMARMOR ==> times_as(a, bare, if hard { 3nat } else { 4 }, 4)
            &&& ability == Abilities::TABLETSOFRUIN ==> times_as(
                a,
                bare,
                if physical && own != Abilities::TABLETSOFRUIN { 3nat } else { 4 },
                4,
            )
            &&& ability == Abilities::VESSELOFRUIN ==> times_as(
                a,
                bare,
                if special && own != Abilities::VESSELOFRUIN { 3nat } else { 4 },
                4,
            )
            &&& ability == Abilities::LEVITATE || ability == Abilities::BLAZE || ability
                == Abilities::TECHNICIAN ==> times_as(a, bare, 1, 1)
        }),
{
    let q = with_defender(p, Pokemon { ability: Abilities::NONE, ..p.defender });
    let t = normalized_type(p.state, p.attacker, c);
    let category = ruled_category(p.attacker, c);
    let plain = plain_power(
        p.state,
        p.attacking_side,
        p.attacker,
        p.defending_side,
        p.defender,
        c,
        p.attacker_active,
    );
    let x = product(
        plain,
        attacker_ability_factor(p.attacking_side, p.attacker, p.defender, c, t, category, plain),
    );
    let item = item_factor(p.attacker, p.defender, t, category);
    let bulk = bulk_factor(p.defender, category);
    let f = defender_ability_factor(p.attacker, p.defender, c, t, category);
    let g = defender_ability_factor(p.attacker, q.defender, c, t, category);
    lemma_one_of_three(x, f, g, (item, bulk, bulk));
    assert(power(p, c) == product(product(product(x, f), item), bulk));
    assert(power(q, c) == product(product(product(x, g), item), bulk));
    lemma_same_ratio(power(p, c), power(q, c), f, g);
}

/// Whether neither Pokemon has an ability or an item that changes power.
pub open spec fn bare(p: Duelists) -> bool {
    &&& p.attacker.ability == Abilities::NONE && p.defender.ability == Abilities::NONE
    &&& p.attacker.item == Items::NONE || p.attacker.item == Items::HEAVYDUTYBOOTS
    &&& p.defender.item == Items::NONE || p.defender.item == Items::HEAVYDUTYBOOTS
}

/// The Pokemon of a side that have no hit points left.
pub open spec fn fallen(side: Side, n: int) -> Set<int> {
    Set::new(|i: int| 0 <= i < n && side.pokemon@[i].hp == 0)
}

proof fn lemma_fallen(side: Side, n: int)
    requires
        n >= 0,
    ensures
        fallen(side, n).finite(),
        side.fainted_among(n) == fallen(side, n).len(),
    decreases n,
{
    if n == 0 {
        assert(fallen(side, 0) =~= Set::<int>::empty());
    } else {
        lemma_fallen(side, n - 1);
        if side.pokemon@[n - 1].hp == 0 {
            assert(fallen(side, n) =~= fallen(side, n - 1).insert(n - 1));
        } else {
            assert(fallen(side, n) =~= fallen(side, n - 1));
        }
    }
}

/// A stage, as far as it is a raise.
pub open spec fn upward(stage: i8) -> int {
    if stage < 0 {
        0
    } else {
        stage as int
    }
}

/// What the rules of moves give, where neither ability nor item has a say.
/// Moves that no rule speaks of have the power that they are listed with.
#[verifier::rlimit(40)]
pub proof fn lemma_what_moves_say(p: Duelists, c: Choice)
    requires
        bare(p),
        p.attacker.hp >= 0,
        p.defender.hp >= 0,
        p.attacker.maxhp >= 1,
        p.defender.maxhp >= 1,
        c.base_power.den > 0,
    ensures
        ({
            let x = power(p, c);
            let listed = (c.base_power.num as nat, c.base_power.den as nat);
            let a = p.attacker;
            let d = p.defender;
            let side = p.attacking_side;
            let raises = upward(side.attack_boost) + upward(side.defense_boost) + upward(
                side.special_attack_boost,
            ) + upward(side.special_defense_boost) + upward(side.speed_boost);
            let fell = fallen(side, 6).len();
            let down = d.hp * 2 <= d.maxhp;
            let walled = p.defending_side.side_conditions.reflect > 0
                || p.defending_side.side_conditions.aurora_veil > 0;
            let id = c.move_id;
            &&& id == Choices::ERUPTION || id == Choices::WATERSPOUT ==> x.0 * a.maxhp == 150 * a.hp
                * x.1
            &&& id == Choices::FLAIL || id == Choices::REVERSAL ==> {
                let share = a.hp * 1000;
                let full = a.maxhp as int;
                &&& share >= 688 * full ==> x.0 == 20 * x.1
                &&& 354 * full <= share < 688 * full ==> x.0 == 40 * x.1
                &&& 208 * full <= share < 354 * full ==> x.0 == 80 * x.1
                &&& 104 * full <= share < 208 * full ==> x.0 == 100 * x.1
                &&& 42 * full <= share < 104 * full ==> x.0 == 150 * x.1
                &&& share < 42 * full ==> x.0 == 200 * x.1
            }
            &&& id == Choices::HARDPRESS ==> x.0 * d.maxhp == 100 * d.hp * x.1
            &&& id == Choices::STOREDPOWER && p.attacker_active ==> x.0 == (20 + 20 * raises) * x.1
            &&& id == Choices::STOREDPOWER && !p.attacker_active ==> x.0 == 20 * x.1
            &&& id == Choices::LASTRESPECTS ==> x.0 == (50 + 50 * fell) * x.1
            &&& id == Choices::ACROBATICS ==> times_as(
                x,
                listed,
                if a.item == Items::NONE { 2nat } else { 1 },
                1,
            )
            &&& id == Choices::KNOCKOFF ==> times_as(
                x,
                listed,
                if d.item == Items::NONE { 2nat } else { 3 },
                2,
            )
            &&& id == Choices::FACADE ==> times_as(
                x,
                listed,
                if a.status == PokemonStatus::NONE { 1nat } else { 2 },
                1,
            )
            &&& id == Choices::HEX ==> times_as(
                x,
                listed,
                if d.status == PokemonStatus::NONE { 1nat } else { 2 },
                1,
            )
            &&& id == Choices::BRINE ==> times_as(x, listed, if down { 2nat } else { 1 }, 1)
            &&& id == Choices::WEATHERBALL ==> times_as(
                x,
                listed,
                if p.state.weather_type == Weather::NONE { 1nat } else { 2 },
                1,
            )
            &&& id == Choices::RAGINGBULL ==> times_as(x, listed, if walled { 2nat } else { 1 }, 1)
            &&& id == Choices::TERABLAST || id == Choices::IVYCUDGEL || id == Choices::GRASSYGLIDE
                || id == Choices::THOUSANDARROWS ==> times_as(x, listed, 1, 1)
            &&& id is OTHER || id is NONE ==> times_as(x, listed, 1, 1)
        }),
{
    lemma_fallen(p.attacking_side, 6);
    let ruled = ruled_power(
        p.state,
        p.attacking_side,
        p.attacker,
        p.defending_side,
        p.defender,
        c,
        p.attacker_active,
    );
    let x = power(p, c);
    assert(x.0 == ruled.0 * 1 * 1 * 1 * 1 * 1 && x.1 == ruled.1 * 1 * 1 * 1 * 1 * 1);
    assert(x == ruled);
    let n = c.base_power.num as int;
    let d = c.base_power.den as int;
    assert((n * 2) * d * 1 == n * (d * 1) * 2) by (nonlinear_arith);
    assert((n * 3) * d * 2 == n * (d * 2) * 3) by (nonlinear_arith);
    assert(n * d * 2 == n * d * 2);
}

/// What turns the type of a move: the weather for a weather ball, the crystal
/// for a tera blast, the mask for an ivy cudgel; and then, of a move that is
/// normal, an ability that turns normal moves, which adds a fifth to its
/// power, and of one that sounds, a liquid voice.
pub proof fn lemma_what_turns_a_type(p: Duelists, c: Choice)
    ensures
        ({
            let t = as_it_hits(p, c).move_type;
            let plain = as_it_hits(
                with_attacker(p, Pokemon { ability: Abilities::NONE, ..p.attacker }),
                c,
            ).move_type;
            let a = p.attacker;
            let w = p.state.weather_type;
            &&& c.move_id == Choices::WEATHERBALL && (w == Weather::SUN || w == Weather::HARSHSUN)
                ==> plain == PokemonType::FIRE
            &&& c.move_id == Choices::WEATHERBALL && (w == Weather::RAIN || w == Weather::HEAVYRAIN)
                ==> plain == PokemonType::WATER
            &&& c.move_id == Choices::WEATHERBALL && w == Weather::SAND ==> plain
                == PokemonType::ROCK
            &&& c.move_id == Choices::WEATHERBALL && (w == Weather::HAIL || w == Weather::SNOW)
                ==> plain == PokemonType::ICE
            &&& c.move_id == Choices::WEATHERBALL && w == Weather::NONE ==> plain == c.move_type
            &&& c.move_id == Choices::TERABLAST ==> plain == if a.terastallized {
                a.tera_type
            } else {
                c.move_type
            }
            &&& c.move_id == Choices::IVYCUDGEL && a.item == Items::WELLSPRINGMASK ==> plain
                == PokemonType::WATER
            &&& c.move_id == Choices::IVYCUDGEL && a.item == Items::HEARTHFLAMEMASK ==> plain
                == PokemonType::FIRE
            &&& c.move_id == Choices::IVYCUDGEL && a.item == Items::CORNERSTONEMASK ==> plain
                == PokemonType::ROCK
            &&& c.move_id != Choices::WEATHERBALL && c.move_id != Choices::TERABLAST && c.move_id
                != Choices::IVYCUDGEL ==> plain == c.move_type
            &&& a.ability == Abilities::PIXILATE ==> t == if plain == PokemonType::NORMAL {
                PokemonType::FAIRY
            } else {
                plain
            }
            &&& a.ability == Abilities::REFRIGERATE ==> t == if plain == PokemonType::NORMAL {
                PokemonType::ICE
            } else {
                plain
            }
            &&& a.ability == Abilities::AERILATE ==> t == if plain == PokemonType::NORMAL {
                PokemonType::FLYING
            } else {
                plain
            }
            &&& a.ability == Abilities::GALVANIZE ==> t == if plain == PokemonType::NORMAL {
                PokemonType::ELECTRIC
            } else {
                plain
            }
            &&& a.ability == Abilities::LIQUIDVOICE ==> t == if c.flags.sound {
                PokemonType::WATER
            } else {
                plain
            }
            &&& !turns_normal_moves(a.ability) ==> t == plain
        }),
{
}

/// The category of a hit is that of the move, but for the tera blast of a
/// terastallized attacker whose attack is higher than its special attack.
pub proof fn lemma_what_category_a_hit_has(p: Duelists, c: Choice)
    ensures
        ({
            let turned = c.move_id == Choices::TERABLAST && p.attacker.terastallized
                && p.attacker.attack > p.attacker.special_attack;
            &&& turned ==> as_it_hits(p, c).category == MoveCategory::Physical
            &&& !turned ==> as_it_hits(p, c).category == c.category
        }),
{
}

/// A normal move that an ability turns has a fifth more power than its rule
/// gives, before anything else has a say; every other move has not.
#[verifier::rlimit(40)]
pub proof fn lemma_what_turning_adds(p: Duelists, c: Choice)
    requires
        p.defender.ability == Abilities::NONE,
        p.attacker.item == Items::NONE,
        p.defender.item == Items::NONE,
        turns_normal_moves(p.attacker.ability),
    ensures
        ({
            let q = with_attacker(p, Pokemon { ability: Abilities::NONE, ..p.attacker });
            let gains = p.attacker.ability != Abilities::LIQUIDVOICE && as_it_hits(q, c).move_type
                == PokemonType::NORMAL;
            times_as(power(p, c), power(q, c), if gains { 6nat } else { 5 }, 5)
        }),
{
    let q = with_attacker(p, Pokemon { ability: Abilities::NONE, ..p.attacker });
    let ruled = ruled_power(
        p.state,
        p.attacking_side,
        p.attacker,
        p.defending_side,
        p.defender,
        c,
        p.attacker_active,
    );
    let f = recolor_factor(p.attacker, ruled_type(p.state, p.attacker, c));
    let g = recolor_factor(q.attacker, ruled_type(p.state, q.attacker, c));
    let one: (nat, nat) = (1, 1);
    lemma_one_of_three(ruled, f, g, (one, one, one));
    let a = product(product(product(product(ruled, f), one), one), one);
    let b = product(product(product(product(ruled, g), one), one), one);
    lemma_and_another(a, b, one, f.0 * g.1, f.1 * g.0);
    assert(power(p, c) == product(a, one));
    assert(power(q, c) == product(b, one));
    lemma_same_ratio(power(p, c), power(q, c), f, g);
    let u = power(p, c);
    let v = power(q, c);
    assert(u.0 * v.1 * 1 == v.0 * u.1 * 1 ==> u.0 * v.1 * 5 == v.0 * u.1 * 5) by (nonlinear_arith);
}

} // verus!
