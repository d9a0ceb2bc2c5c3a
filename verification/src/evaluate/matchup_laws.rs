//! What the matchup features are, in exact arithmetic, and their symmetry.

use crate::evaluate::matchups::{
    answers_to, attack_of, beats, count_where, is_revenged, own_side, revenges, wins_of,
    SideMatchups,
};
use crate::matchup::kernel::{stands, MatchupKernel};
use crate::state::State;
use vstd::prelude::*;

verus! {

/// What a Pokemon's matchups are worth: all of it for the active one, and
/// `bench_scale` of it for one that still has to pay an entry.
pub open spec fn credit(m: SideMatchups, i: int, bench_scale: real) -> real {
    if i == m.active {
        1 as real
    } else {
        bench_scale
    }
}

/// One if it holds.
pub open spec fn indicator(holds: bool) -> real {
    if holds {
        1 as real
    } else {
        0 as real
    }
}

/// How many standing Pokemon of a side can be revenged. This credits the
/// other side, in full: a revenge knock-out enters on a faint for free.
pub open spec fn revenged_count(m: SideMatchups, n: int) -> real
    decreases n,
{
    if n <= 0 {
        0 as real
    } else {
        revenged_count(m, n - 1) + indicator(m.alive@[n - 1] && m.revenged@[n - 1])
    }
}

/// The share of the foes that each Pokemon beats, added up.
pub open spec fn threat_breadth(m: SideMatchups, bench_scale: real, n: int) -> real
    decreases n,
{
    if n <= 0 {
        0 as real
    } else {
        threat_breadth(m, bench_scale, n - 1) + if m.alive@[n - 1] && m.opponents > 0 {
            credit(m, n - 1, bench_scale) * (m.wins@[n - 1] as real / m.opponents as real)
        } else {
            0 as real
        }
    }
}

/// How many Pokemon beat every foe.
pub open spec fn win_conditions(m: SideMatchups, bench_scale: real, n: int) -> real
    decreases n,
{
    if n <= 0 {
        0 as real
    } else {
        win_conditions(m, bench_scale, n - 1) + if m.alive@[n - 1] && m.opponents > 0
            && m.wins@[n - 1] == m.opponents {
            credit(m, n - 1, bench_scale)
        } else {
            0 as real
        }
    }
}

/// How many Pokemon no foe can come in on.
pub open spec fn unanswered(m: SideMatchups, bench_scale: real, n: int) -> real
    decreases n,
{
    if n <= 0 {
        0 as real
    } else {
        unanswered(m, bench_scale, n - 1) + if m.alive@[n - 1] && m.opponents > 0
            && m.answered@[n - 1] == 0 {
            credit(m, n - 1, bench_scale)
        } else {
            0 as real
        }
    }
}

/// The six matchup features of a side, in their order in the vector.
pub open spec fn matchup_features(own: SideMatchups, foe: SideMatchups, bench_scale: real) -> Seq<
    real,
> {
    seq![
        revenged_count(foe, 6),
        threat_breadth(own, bench_scale, 6),
        win_conditions(own, bench_scale, 6),
        unanswered(own, bench_scale, 6),
        indicator(own.wins_duel),
        indicator(own.pressures),
    ]
}

/// Whether the tables of one kernel are those of the other, swapped.
pub open spec fn mirrored(k: MatchupKernel, l: MatchupKernel) -> bool {
    k.one_to_two@ == l.two_to_one@ && k.two_to_one@ == l.one_to_two@
}

proof fn lemma_count_same(n: int, p: spec_fn(int) -> bool, q: spec_fn(int) -> bool)
    requires
        forall|j: int| 0 <= j < n ==> #[trigger] p(j) == q(j),
    ensures
        count_where(n, p) == count_where(n, q),
    decreases n,
{
    if n > 0 {
        lemma_count_same(n - 1, p, q);
        assert(p(n - 1) == q(n - 1));
    }
}

proof fn lemma_mirrored_rows(
    state: State,
    k: MatchupKernel,
    l: MatchupKernel,
    on_one: bool,
    i: int,
)
    requires
        mirrored(k, l),
        0 <= i < 6,
    ensures
        is_revenged(state, k, on_one, i, 6) == is_revenged(state.swapped(), l, !on_one, i, 6),
        wins_of(state, k, on_one, i, 6) == wins_of(state.swapped(), l, !on_one, i, 6),
        answers_to(state, k, on_one, i, 6) == answers_to(state.swapped(), l, !on_one, i, 6),
{
    let flip = state.swapped();
    let other = !on_one;
    assert forall|j: int| 0 <= j < 6 implies #[trigger] revenges(state, k, on_one, i, j)
        == revenges(flip, l, !on_one, i, j) by {
        assert(attack_of(k, on_one, i, j) == attack_of(l, !on_one, i, j));
        assert(attack_of(k, !on_one, j, i) == attack_of(l, on_one, j, i));
    }
    if is_revenged(state, k, on_one, i, 6) {
        let j = choose|j: int| 0 <= j < 6 && #[trigger] revenges(state, k, on_one, i, j);
        assert(revenges(flip, l, !on_one, i, j));
    }
    if is_revenged(flip, l, !on_one, i, 6) {
        let j = choose|j: int| 0 <= j < 6 && #[trigger] revenges(flip, l, other, i, j);
        assert(revenges(state, k, on_one, i, j));
    }
    let p = |j: int| stands(own_side(state, !on_one), j) && beats(state, k, on_one, i, j);
    let q = |j: int| stands(own_side(flip, !!on_one), j) && beats(flip, l, !on_one, i, j);
    assert forall|j: int| 0 <= j < 6 implies #[trigger] p(j) == q(j) by {
        assert(attack_of(k, on_one, i, j) == attack_of(l, !on_one, i, j));
        assert(attack_of(k, !on_one, j, i) == attack_of(l, on_one, j, i));
    }
    lemma_count_same(6, p, q);
    let r = |j: int| stands(own_side(state, !on_one), j) && k.counters(state, on_one, i, j);
    let s = |j: int| stands(own_side(flip, !!on_one), j) && l.counters(flip, !on_one, i, j);
    assert forall|j: int| 0 <= j < 6 implies #[trigger] r(j) == s(j) by {
        assert(k.counters(state, on_one, i, j) == l.counters(flip, !on_one, i, j));
    }
    lemma_count_same(6, r, s);
}

/// Swapping the sides swaps the two sides' matchups: what is told of a side
/// is told of it again under its other name.
pub proof fn lemma_matchups_are_side_symmetric(
    state: State,
    k: MatchupKernel,
    l: MatchupKernel,
    on_one: bool,
    m: SideMatchups,
    w: SideMatchups,
)
    requires
        state.wf(),
        mirrored(k, l),
        m.tells(state, k, on_one),
        w.tells(state.swapped(), l, !on_one),
    ensures
        m.alive@ == w.alive@,
        m.active == w.active,
        m.opponents == w.opponents,
        m.revenged@ == w.revenged@,
        m.wins@ == w.wins@,
        m.answered@ == w.answered@,
        m.wins_duel == w.wins_duel,
        m.pressures == w.pressures,
{
    let flip = state.swapped();
    let own = own_side(state, on_one);
    let foe = own_side(state, !on_one);
    assert(own == own_side(flip, !on_one));
    assert(foe == own_side(flip, on_one));
    assert forall|i: int| 0 <= i < 6 implies m.alive@[i] == w.alive@[i] && m.revenged@[i]
        == w.revenged@[i] && m.wins@[i] == w.wins@[i] && m.answered@[i] == w.answered@[i] by {
        lemma_mirrored_rows(state, k, l, on_one, i);
        assert(m.alive@[i] == stands(own, i));
        assert(w.alive@[i] == stands(own, i));
    }
    assert(m.alive@ =~= w.alive@);
    assert(m.revenged@ =~= w.revenged@);
    assert(m.wins@ =~= w.wins@);
    assert(m.answered@ =~= w.answered@);
    let a = own.active_index as int;
    let b = foe.active_index as int;
    lemma_mirrored_rows(state, k, l, on_one, a);
    assert(attack_of(k, on_one, a, b) == attack_of(l, !on_one, a, b));
    assert(attack_of(k, !on_one, b, a) == attack_of(l, on_one, b, a));
}

proof fn lemma_same_sums(m: SideMatchups, w: SideMatchups, bench_scale: real, n: int)
    requires
        0 <= n <= 6,
        m.alive@ == w.alive@,
        m.active == w.active,
        m.opponents == w.opponents,
        m.revenged@ == w.revenged@,
        m.wins@ == w.wins@,
        m.answered@ == w.answered@,
    ensures
        revenged_count(m, n) == revenged_count(w, n),
        threat_breadth(m, bench_scale, n) == threat_breadth(w, bench_scale, n),
        win_conditions(m, bench_scale, n) == win_conditions(w, bench_scale, n),
        unanswered(m, bench_scale, n) == unanswered(w, bench_scale, n),
    decreases n,
{
    if n > 0 {
        lemma_same_sums(m, w, bench_scale, n - 1);
    }
}

/// The matchup features of the two sides change places when the sides do,
/// so each difference of the two turns its sign.
pub proof fn lemma_matchup_features_are_side_symmetric(
    state: State,
    k: MatchupKernel,
    l: MatchupKernel,
    one: SideMatchups,
    two: SideMatchups,
    swapped_one: SideMatchups,
    swapped_two: SideMatchups,
    bench_scale: real,
)
    requires
        state.wf(),
        mirrored(k, l),
        one.tells(state, k, true),
        two.tells(state, k, false),
        swapped_one.tells(state.swapped(), l, true),
        swapped_two.tells(state.swapped(), l, false),
    ensures
        matchup_features(swapped_one, swapped_two, bench_scale) == matchup_features(
            two,
            one,
            bench_scale,
        ),
        matchup_features(swapped_two, swapped_one, bench_scale) == matchup_features(
            one,
            two,
            bench_scale,
        ),
{
    lemma_matchups_are_side_symmetric(state, k, l, true, one, swapped_two);
    lemma_matchups_are_side_symmetric(state, k, l, false, two, swapped_one);
    lemma_same_sums(one, swapped_two, bench_scale, 6);
    lemma_same_sums(two, swapped_one, bench_scale, 6);
}

/// A number between two others, as far from the first as `scale` says.
pub open spec fn between(first: real, second: real, scale: real) -> real {
    first + scale * (second - first)
}

proof fn lemma_sums_are_linear(m: SideMatchups, scale: real, n: int)
    requires
        0 <= n <= 6,
    ensures
        threat_breadth(m, scale, n) == between(
            threat_breadth(m, 0 as real, n),
            threat_breadth(m, 1 as real, n),
            scale,
        ),
        win_conditions(m, scale, n) == between(
            win_conditions(m, 0 as real, n),
            win_conditions(m, 1 as real, n),
            scale,
        ),
        unanswered(m, scale, n) == between(
            unanswered(m, 0 as real, n),
            unanswered(m, 1 as real, n),
            scale,
        ),
    decreases n,
{
    lemma_between_adds(0 as real, 0 as real, 0 as real, 0 as real, scale);
    if n > 0 {
        lemma_sums_are_linear(m, scale, n - 1);
        let share = m.wins@[n - 1] as real / m.opponents as real;
        let own = credit(m, n - 1, scale);
        let none = credit(m, n - 1, 0 as real);
        let all = credit(m, n - 1, 1 as real);
        assert(own == none + scale * (all - none)) by (nonlinear_arith)
            requires
                (own == 1 as real && none == 1 as real && all == 1 as real) || (own == scale
                    && none == 0 as real && all == 1 as real),
        ;
        assert(own * share == none * share + scale * (all * share - none * share))
            by (nonlinear_arith)
            requires
                own == none + scale * (all - none),
        ;
        lemma_between_adds(
            threat_breadth(m, 0 as real, n - 1),
            threat_breadth(m, 1 as real, n - 1),
            none * share,
            all * share,
            scale,
        );
        lemma_between_adds(
            win_conditions(m, 0 as real, n - 1),
            win_conditions(m, 1 as real, n - 1),
            none,
            all,
            scale,
        );
        lemma_between_adds(
            unanswered(m, 0 as real, n - 1),
            unanswered(m, 1 as real, n - 1),
            none,
            all,
            scale,
        );
    }
}

proof fn lemma_between_adds(a: real, b: real, c: real, d: real, scale: real)
    ensures
        between(a, b, scale) + between(c, d, scale) == between(a + c, b + d, scale),
        between(a, b, scale) + 0 as real == between(a + 0 as real, b + 0 as real, scale),
        between(a, a, scale) == a,
{
    assert(scale * (b - a) + scale * (d - c) == scale * ((b + d) - (a + c))) by (nonlinear_arith);
    assert(scale * (a - a) == 0 as real) by (nonlinear_arith);
}

/// The matchup features are linear in the bench scale: each lies between its
/// values without the bench and with the bench in full, as far from the
/// first as the scale says.
pub proof fn lemma_matchup_features_are_linear_in_the_bench_scale(
    own: SideMatchups,
    foe: SideMatchups,
    scale: real,
    f: int,
)
    requires
        0 <= f < 6,
    ensures
        matchup_features(own, foe, scale)[f] == between(
            matchup_features(own, foe, 0 as real)[f],
            matchup_features(own, foe, 1 as real)[f],
            scale,
        ),
{
    lemma_sums_are_linear(own, scale, 6);
    let x = matchup_features(own, foe, 0 as real)[f];
    lemma_between_adds(x, x, 0 as real, 0 as real, scale);
}

} // verus!
