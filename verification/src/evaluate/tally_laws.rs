//! What the tallied matchups say, pair by pair of Pokemon.

use crate::evaluate::matchups::{
    active_wins, answers_to, beats, count_where, is_revenged, revenges, wins_of, SideMatchups,
};
use crate::matchup::attack_laws::{
    lemma_fewest_hits, lemma_who_strikes_first, lemma_who_wins_a_duel, strikes_first,
};
use crate::matchup::kernel::{answered, hp_after_entry, standing, stands, MatchupKernel};
use crate::matchup::pair::{hits_to_faint, PairResult};
use crate::state::{Pokemon, Side, State};
use vstd::prelude::*;

verus! {

/// The first `n` numbers that `holds` accepts.
pub open spec fn those_below(n: int, holds: spec_fn(int) -> bool) -> Set<int> {
    Set::new(|j: int| 0 <= j < n && holds(j))
}

/// Counting is counting.
pub proof fn lemma_count_is_a_number(n: int, holds: spec_fn(int) -> bool)
    requires
        n >= 0,
    ensures
        those_below(n, holds).finite(),
        count_where(n, holds) == those_below(n, holds).len(),
    decreases n,
{
    if n == 0 {
        assert(those_below(0, holds) =~= Set::<int>::empty());
    } else {
        lemma_count_is_a_number(n - 1, holds);
        if holds(n - 1) {
            assert(those_below(n, holds) =~= those_below(n - 1, holds).insert(n - 1));
        } else {
            assert(those_below(n, holds) =~= those_below(n - 1, holds));
        }
    }
}

/// Whether a reply knocks its target out before the target's attack.
pub open spec fn strikes_down(
    trick_room: bool,
    attack: PairResult,
    reply: PairResult,
    hp: i16,
) -> bool {
    reply.damage >= hp && strikes_first(trick_room, reply, attack)
}

/// Whether an attack wins a duel: it hurts, and needs fewer hits than the
/// reply, or as many and strikes first.
pub open spec fn prevails(trick_room: bool, attack: PairResult, reply: PairResult) -> bool {
    attack.hits matches Some(n) && (reply.hits is None || n < reply.hits->0 || (n == reply.hits->0
        && strikes_first(trick_room, attack, reply)))
}

/// Whether one who comes in with `entry` hit points and takes an attack on
/// the way wins from there: in some turn the reply has taken all of the
/// threat's hit points, and the attack not yet all that is left.
pub open spec fn comes_in_and_wins(
    trick_room: bool,
    attack: PairResult,
    reply: PairResult,
    threat_hp: i16,
    entry: int,
) -> bool {
    &&& entry - attack.damage > 0
    &&& exists|turn: int|
        1 <= turn <= threat_hp && #[trigger] (turn * reply.damage) >= threat_hp && if strikes_first(
            trick_room,
            reply,
            attack,
        ) {
            (turn - 1) * attack.damage < entry - attack.damage
        } else {
            turn * attack.damage < entry - attack.damage
        }
}

proof fn lemma_answered(
    trick_room: bool,
    attack: PairResult,
    reply: PairResult,
    threat_hp: i16,
    entry: int,
)
    requires
        threat_hp > 0,
        attack.damage >= 0,
        reply.damage >= 0,
        entry <= i16::MAX,
    ensures
        answered(trick_room, attack, reply, threat_hp, entry) == comes_in_and_wins(
            trick_room,
            attack,
            reply,
            threat_hp,
            entry,
        ),
{
    let left = entry - attack.damage;
    if left > 0 {
        let own = PairResult { hits: hits_to_faint(reply.damage, threat_hp), ..reply };
        let foe = PairResult { hits: hits_to_faint(attack.damage, left as i16), ..attack };
        lemma_fewest_hits(reply.damage, threat_hp);
        lemma_fewest_hits(attack.damage, left as i16);
        lemma_who_wins_a_duel(trick_room, own, foe);
        let first = strikes_first(trick_room, reply, attack);
        assert(first == strikes_first(trick_room, own, foe));
        let r = reply.damage as int;
        let a = attack.damage as int;
        if r > 0 {
            let n = own.hits->0 as int;
            assert(n <= threat_hp) by (nonlinear_arith)
                requires
                    (n - 1) * r < threat_hp,
                    r >= 1,
                    n >= 1,
                    threat_hp >= 1,
            ;
            assert forall|turn: int| 1 <= turn && #[trigger] (turn * r) >= threat_hp implies turn
                >= n by {
                assert(turn >= n) by (nonlinear_arith)
                    requires
                        turn * r >= threat_hp,
                        (n - 1) * r < threat_hp,
                        r >= 1,
                ;
            }
            if a > 0 {
                let m = foe.hits->0 as int;
                assert forall|turn: int| 1 <= turn implies (#[trigger] (turn * r) == turn * r && (
                turn * a < left <==> turn < m) && ((turn - 1) * a < left <==> turn <= m)) by {
                    lemma_before(turn, a, m, left);
                    lemma_before(turn - 1, a, m, left);
                }
            } else {
                assert forall|turn: int| #[trigger] (turn * r) == turn * r && turn * a < left && (
                turn - 1) * a < left by {
                    assert(turn * a == 0 && (turn - 1) * a == 0) by (nonlinear_arith)
                        requires
                            a == 0,
                    ;
                }
            }
            assert(n * r >= threat_hp);
        } else {
            assert forall|turn: int| #[trigger] (turn * r) < threat_hp by {
                assert(turn * r == 0) by (nonlinear_arith)
                    requires
                        r == 0,
                ;
            }
        }
    }
}

proof fn lemma_before(turn: int, a: int, m: int, left: int)
    requires
        a >= 1,
        m * a >= left,
        (m - 1) * a < left,
    ensures
        turn * a < left <==> turn < m,
{
    if turn < m {
        assert(turn * a <= (m - 1) * a) by (nonlinear_arith)
            requires
                turn <= m - 1,
                a >= 1,
        ;
    } else {
        assert(turn * a >= m * a) by (nonlinear_arith)
            requires
                turn >= m,
                a >= 1,
        ;
    }
}

/// What a tally says of a side's Pokemon `i`, whose attacks on each foe `j`
/// are `attacks[i * 6 + j]` and who is replied to by `replies[j * 6 + i]`.
pub open spec fn says(
    m: SideMatchups,
    own: Side,
    foe: Side,
    attacks: Seq<PairResult>,
    replies: Seq<PairResult>,
    trick_room: bool,
    i: int,
) -> bool {
    let p = own.pokemon@[i];
    let beaten = those_below(
        6,
        |j: int|
            foe.pokemon@[j].hp > 0 && prevails(trick_room, attacks[i * 6 + j], replies[j * 6 + i]),
    );
    let answers = those_below(
        6,
        |j: int|
            foe.pokemon@[j].hp > 0 && comes_in_and_wins(
                trick_room,
                attacks[i * 6 + j],
                replies[j * 6 + i],
                p.hp,
                hp_after_entry(foe, foe.pokemon@[j]),
            ),
    );
    &&& m.active == own.active_index
    &&& m.opponents == those_below(6, |j: int| foe.pokemon@[j].hp > 0).len()
    &&& m.alive@[i] == (p.hp > 0)
    &&& m.revenged@[i] <==> p.hp > 0 && exists|j: int|
        0 <= j < 6 && foe.pokemon@[j].hp > 0 && strikes_down(
            trick_room,
            #[trigger] attacks[i * 6 + j],
            replies[j * 6 + i],
            p.hp,
        )
    &&& p.hp > 0 ==> m.wins@[i] == beaten.len() && m.answered@[i] == answers.len()
    &&& p.hp <= 0 ==> m.wins@[i] == 0 && m.answered@[i] == 0
    &&& i == own.active_index ==> {
        let duel = p.hp > 0 && foe.pokemon@[foe.active_index as int].hp > 0 && prevails(
            trick_room,
            attacks[i * 6 + foe.active_index],
            replies[foe.active_index * 6 + i],
        );
        &&& m.wins_duel == duel
        &&& m.pressures == (duel && answers.len() == 0)
    }
}

proof fn lemma_row(state: State, k: MatchupKernel, m: SideMatchups, on_one: bool, i: int)
    requires
        state.wf(),
        k.wf(state),
        m.tells(state, k, on_one),
        0 <= i < 6,
    ensures
        on_one ==> says(
            m,
            state.side_one,
            state.side_two,
            k.one_to_two@,
            k.two_to_one@,
            state.trick_room_active,
            i,
        ),
        !on_one ==> says(
            m,
            state.side_two,
            state.side_one,
            k.two_to_one@,
            k.one_to_two@,
            state.trick_room_active,
            i,
        ),
{
    let own = if on_one {
        state.side_one
    } else {
        state.side_two
    };
    let foe = if on_one {
        state.side_two
    } else {
        state.side_one
    };
    let attacks = if on_one {
        k.one_to_two@
    } else {
        k.two_to_one@
    };
    let replies = if on_one {
        k.two_to_one@
    } else {
        k.one_to_two@
    };
    let trick = state.trick_room_active;
    let p = own.pokemon@[i];
    let wins = |j: int|
        foe.pokemon@[j].hp > 0 && prevails(trick, attacks[i * 6 + j], replies[j * 6 + i]);
    let comes = |j: int|
        foe.pokemon@[j].hp > 0 && comes_in_and_wins(
            trick,
            attacks[i * 6 + j],
            replies[j * 6 + i],
            p.hp,
            hp_after_entry(foe, foe.pokemon@[j]),
        );
    let beaten = |j: int| stands(foe, j) && beats(state, k, on_one, i, j);
    let answering = |j: int| stands(foe, j) && k.counters(state, on_one, i, j);
    assert(m.alive@[i] == stands(own, i));
    assert forall|j: int| 0 <= j < 6 implies wins(j) == #[trigger] beaten(j) && (
    #[trigger] revenges(state, k, on_one, i, j) == (foe.pokemon@[j].hp > 0 && strikes_down(
        trick,
        attacks[i * 6 + j],
        replies[j * 6 + i],
        p.hp,
    ))) by {
        lemma_who_wins_a_duel(trick, attacks[i * 6 + j], replies[j * 6 + i]);
        lemma_who_strikes_first(trick, replies[j * 6 + i], attacks[i * 6 + j]);
    }
    assert forall|j: int| 0 <= j < 6 && p.hp > 0 implies comes(j) == #[trigger] answering(j) by {
        assert(foe.pokemon@[j].wf());
        assert(attacks[i * 6 + j].wf() && replies[j * 6 + i].wf());
        lemma_entry_is_small(foe, foe.pokemon@[j]);
        lemma_answered(
            trick,
            attacks[i * 6 + j],
            replies[j * 6 + i],
            p.hp,
            hp_after_entry(foe, foe.pokemon@[j]),
        );
    }
    lemma_standing(foe, 6);
    lemma_count_is_a_number(6, beaten);
    lemma_count_is_a_number(6, answering);
    assert(those_below(6, beaten) =~= those_below(6, wins)) by {
        assert forall|j: int| 0 <= j < 6 implies wins(j) == #[trigger] beaten(j) by {
            assert(beaten(j) == beaten(j));
        }
    }
    if p.hp > 0 {
        assert(those_below(6, answering) =~= those_below(6, comes)) by {
            assert forall|j: int| 0 <= j < 6 implies comes(j) == #[trigger] answering(j) by {
                assert(answering(j) == answering(j));
            }
        }
    }
    assert(wins_of(state, k, on_one, i, 6) == count_where(6, beaten));
    assert(answers_to(state, k, on_one, i, 6) == count_where(6, answering));
    assert(is_revenged(state, k, on_one, i, 6) <==> exists|j: int|
        0 <= j < 6 && foe.pokemon@[j].hp > 0 && strikes_down(
            trick,
            #[trigger] attacks[i * 6 + j],
            replies[j * 6 + i],
            p.hp,
        )) by {
        if is_revenged(state, k, on_one, i, 6) {
            let j = choose|j: int| 0 <= j < 6 && #[trigger] revenges(state, k, on_one, i, j);
            assert(foe.pokemon@[j].hp > 0 && strikes_down(
                trick,
                attacks[i * 6 + j],
                replies[j * 6 + i],
                p.hp,
            ));
        }
        if exists|j: int|
            0 <= j < 6 && foe.pokemon@[j].hp > 0 && strikes_down(
                trick,
                #[trigger] attacks[i * 6 + j],
                replies[j * 6 + i],
                p.hp,
            ) {
            let j = choose|j: int|
                0 <= j < 6 && foe.pokemon@[j].hp > 0 && strikes_down(
                    trick,
                    #[trigger] attacks[i * 6 + j],
                    replies[j * 6 + i],
                    p.hp,
                );
            assert(revenges(state, k, on_one, i, j));
        }
    }
    assert(m.wins@[i] == m.wins@[i] && m.answered@[i] == m.answered@[i]);
    assert(m.revenged@[i] == (stands(own, i) && is_revenged(state, k, on_one, i, 6)));
    if i == own.active_index {
        let a = foe.active_index as int;
        assert(0 <= a < 6);
        assert(beaten(a) == wins(a));
        assert(active_wins(state, k, on_one) == (p.hp > 0 && beaten(a)));
    }
}

proof fn lemma_standing(side: Side, n: int)
    requires
        n >= 0,
    ensures
        standing(side, n) == those_below(n, |j: int| side.pokemon@[j].hp > 0).len(),
    decreases n,
{
    let up = |j: int| side.pokemon@[j].hp > 0;
    if n == 0 {
        assert(those_below(0, up) =~= Set::<int>::empty());
    } else {
        lemma_standing(side, n - 1);
        lemma_count_is_a_number(n - 1, up);
        if up(n - 1) {
            assert(those_below(n, up) =~= those_below(n - 1, up).insert(n - 1));
        } else {
            assert(those_below(n, up) =~= those_below(n - 1, up));
        }
    }
}

proof fn lemma_entry_is_small(side: Side, p: Pokemon)
    requires
        p.wf(),
    ensures
        hp_after_entry(side, p) <= i16::MAX,
{
    let t = p.taken(crate::state::PokemonType::ROCK);
    assert(p.maxhp * t >= 0) by (nonlinear_arith)
        requires
            p.maxhp >= 0,
            t >= 0,
    ;
    let s = side.side_conditions.spikes as int;
    if s > 0 {
        assert(p.maxhp * s >= 0) by (nonlinear_arith)
            requires
                p.maxhp >= 0,
                s > 0,
        ;
    }
}

/// What the tallies of both sides say, in terms of the attacks and of the
/// position alone. A Pokemon is revenged just if a standing foe's attack does
/// at least its hit points and strikes first; it wins against the standing
/// foes that it needs fewer hits for than they for it, or as many and strikes
/// first; and it is answered by the standing foes that come in, take one
/// attack, and win from there.
pub proof fn lemma_what_tallies_say(
    state: State,
    k: MatchupKernel,
    one: SideMatchups,
    two: SideMatchups,
    i: int,
)
    requires
        state.wf(),
        k.wf(state),
        one.tells(state, k, true),
        two.tells(state, k, false),
        0 <= i < 6,
    ensures
        says(
            one,
            state.side_one,
            state.side_two,
            k.one_to_two@,
            k.two_to_one@,
            state.trick_room_active,
            i,
        ),
        says(
            two,
            state.side_two,
            state.side_one,
            k.two_to_one@,
            k.one_to_two@,
            state.trick_room_active,
            i,
        ),
{
    lemma_row(state, k, one, true, i);
    lemma_row(state, k, two, false, i);
}

} // verus!
