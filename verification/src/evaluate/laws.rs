//! What the evaluation is, in exact arithmetic, and what holds of it.
//!
//! The score and the feature vectors are given here as real numbers read off
//! the events of the walk. Rounding aside, this is what an evaluator that
//! adds the events up in machine numbers computes.

use crate::evaluate::feat;
use crate::evaluate::schema::NUM_EVAL_FEATURES;
use crate::evaluate::walk::{
    active_events, base_events, hazard_events, mon_events, side_condition_events, slot_events,
    slots_events, status_events, team_events, EvalEvent,
};
use crate::state::{Pokemon, Side, State};
use vstd::prelude::*;

verus! {

/// A feature value from its hundredths.
pub open spec fn value_of(hundredths: int) -> real {
    hundredths as real / 100 as real
}

/// The share of health that is left.
pub open spec fn health(hp: int, maxhp: int) -> real {
    hp as real / maxhp as real
}

/// What an event adds to feature `f` of the side that it belongs to.
pub open spec fn contribution(e: EvalEvent, f: int) -> real {
    match e {
        EvalEvent::Hp { hp, maxhp } => if f == feat::HP {
            health(hp as int, maxhp as int)
        } else {
            0 as real
        },
        EvalEvent::Mon { feature, hundredths } => if f == feature {
            value_of(hundredths as int)
        } else {
            0 as real
        },
        EvalEvent::Global { feature, hundredths } => if f == feature {
            value_of(hundredths as int)
        } else {
            0 as real
        },
        EvalEvent::FinishMon => if f == feat::ALIVE {
            1 as real
        } else {
            0 as real
        },
        _ => 0 as real,
    }
}

/// Whether what comes after the events belongs to side one.
pub open spec fn positive_after(events: Seq<EvalEvent>) -> bool
    decreases events.len(),
{
    if events.len() == 0 {
        true
    } else {
        match events.last() {
            EvalEvent::Sign { positive } => positive,
            _ => positive_after(events.drop_last()),
        }
    }
}

pub open spec fn sign(positive: bool) -> real {
    if positive {
        1 as real
    } else {
        -(1 as real)
    }
}

/// Feature `f` of one side.
pub open spec fn side_feature(events: Seq<EvalEvent>, positive: bool, f: int) -> real
    decreases events.len(),
{
    if events.len() == 0 {
        0 as real
    } else {
        let before = events.drop_last();
        side_feature(before, positive, f) + if positive_after(before) == positive {
            contribution(events.last(), f)
        } else {
            0 as real
        }
    }
}

/// Feature `f`, side one minus side two.
pub open spec fn feature(events: Seq<EvalEvent>, f: int) -> real
    decreases events.len(),
{
    if events.len() == 0 {
        0 as real
    } else {
        let before = events.drop_last();
        feature(before, f) + sign(positive_after(before)) * contribution(events.last(), f)
    }
}

/// The feature vector is the difference of the two sides' vectors.
pub proof fn lemma_pair_features_reconstruct_difference(events: Seq<EvalEvent>, f: int)
    ensures
        feature(events, f) == side_feature(events, true, f) - side_feature(events, false, f),
    decreases events.len(),
{
    if events.len() > 0 {
        lemma_pair_features_reconstruct_difference(events.drop_last(), f);
    }
}

/// A score while it is being added up.
pub struct Reading {
    pub positive: bool,
    /// The clampable part of the Pokemon that is being read.
    pub mon: real,
    /// The group that is open, if one is.
    pub group: Option<real>,
    pub total: real,
}

/// What an event makes of the score. A Pokemon's part counts from zero up if
/// `clamp` is on.
pub open spec fn read(r: Reading, e: EvalEvent, weights: spec_fn(int) -> real, clamp: bool) -> Reading {
    match e {
        EvalEvent::Sign { positive } => Reading { positive, ..r },
        EvalEvent::Hp { hp, maxhp } => Reading {
            mon: r.mon + weights(feat::HP as int) * health(hp as int, maxhp as int),
            ..r
        },
        EvalEvent::Mon { feature, hundredths } => Reading {
            mon: r.mon + weights(feature as int) * value_of(hundredths as int),
            ..r
        },
        EvalEvent::FinishMon => Reading {
            mon: 0 as real,
            total: r.total + sign(r.positive) * ((if clamp && r.mon < 0 as real {
                0 as real
            } else {
                r.mon
            }) + weights(feat::ALIVE as int)),
            ..r
        },
        EvalEvent::Global { feature, hundredths } => {
            let value = weights(feature as int) * value_of(hundredths as int);
            match r.group {
                Some(subtotal) => Reading { group: Some(subtotal + value), ..r },
                None => Reading { total: r.total + sign(r.positive) * value, ..r },
            }
        },
        EvalEvent::StartGroup => Reading { group: Some(0 as real), ..r },
        EvalEvent::FinishGroup => Reading {
            group: None,
            total: r.total + sign(r.positive) * (r.group->0),
            ..r
        },
    }
}

/// The score after some events.
pub open spec fn reading(
    start: Reading,
    events: Seq<EvalEvent>,
    weights: spec_fn(int) -> real,
    clamp: bool,
) -> Reading
    decreases events.len(),
{
    if events.len() == 0 {
        start
    } else {
        read(reading(start, events.drop_last(), weights, clamp), events.last(), weights, clamp)
    }
}

/// Before anything was read.
pub open spec fn blank() -> Reading {
    Reading { positive: true, mon: 0 as real, group: None, total: 0 as real }
}

/// The score of a list of events.
pub open spec fn score(events: Seq<EvalEvent>, weights: spec_fn(int) -> real, clamp: bool) -> real {
    reading(blank(), events, weights, clamp).total
}

/// Whether a Pokemon's part or a group is open after the events.
pub open spec fn mon_open(events: Seq<EvalEvent>) -> bool
    decreases events.len(),
{
    events.len() > 0 && match events.last() {
        EvalEvent::Hp { .. } | EvalEvent::Mon { .. } => true,
        EvalEvent::FinishMon => false,
        _ => mon_open(events.drop_last()),
    }
}

pub open spec fn group_open(events: Seq<EvalEvent>) -> bool
    decreases events.len(),
{
    events.len() > 0 && match events.last() {
        EvalEvent::StartGroup => true,
        EvalEvent::FinishGroup => false,
        _ => group_open(events.drop_last()),
    }
}

/// Whether sides change only between Pokemon and groups, groups do not nest
/// and features are in range.
pub open spec fn orderly(events: Seq<EvalEvent>) -> bool
    decreases events.len(),
{
    events.len() == 0 || {
        let before = events.drop_last();
        orderly(before) && match events.last() {
            EvalEvent::Sign { .. } => !mon_open(before) && !group_open(before),
            EvalEvent::StartGroup => !group_open(before),
            EvalEvent::FinishGroup => group_open(before),
            EvalEvent::Mon { feature, .. } => feature < NUM_EVAL_FEATURES,
            EvalEvent::Global { feature, .. } => feature < NUM_EVAL_FEATURES,
            _ => true,
        }
    }
}

/// The weighted sum of the first `n` features.
pub open spec fn dot(weights: spec_fn(int) -> real, features: spec_fn(int) -> real, n: int) -> real
    decreases n,
{
    if n <= 0 {
        0 as real
    } else {
        dot(weights, features, n - 1) + weights(n - 1) * features(n - 1)
    }
}

/// Changing one feature by `delta` changes the sum by its weight times that.
proof fn lemma_dot_change(
    weights: spec_fn(int) -> real,
    before: spec_fn(int) -> real,
    after: spec_fn(int) -> real,
    place: int,
    delta: real,
    n: int,
)
    requires
        0 <= n,
        forall|f: int| f != place ==> #[trigger] after(f) == before(f),
        after(place) == before(place) + delta,
    ensures
        dot(weights, after, n) == dot(weights, before, n) + if 0 <= place < n {
            weights(place) * delta
        } else {
            0 as real
        },
    decreases n,
{
    if n > 0 {
        lemma_dot_change(weights, before, after, place, delta, n - 1);
        if place == n - 1 {
            let w = weights(place);
            let b = before(place);
            assert(w * (b + delta) == w * b + w * delta) by (nonlinear_arith);
        } else {
            assert(after(n - 1) == before(n - 1));
        }
    }
}

proof fn lemma_dot_same(
    weights: spec_fn(int) -> real,
    before: spec_fn(int) -> real,
    after: spec_fn(int) -> real,
    n: int,
)
    requires
        0 <= n,
        forall|f: int| #[trigger] after(f) == before(f),
    ensures
        dot(weights, after, n) == dot(weights, before, n),
    decreases n,
{
    if n > 0 {
        lemma_dot_same(weights, before, after, n - 1);
        assert(after(n - 1) == before(n - 1));
    }
}

/// The features of some events, as a vector.
pub open spec fn features(events: Seq<EvalEvent>) -> spec_fn(int) -> real {
    |f: int| feature(events, f)
}

proof fn lemma_no_features(weights: spec_fn(int) -> real, n: int)
    requires
        0 <= n,
    ensures
        dot(weights, features(Seq::<EvalEvent>::empty()), n) == 0 as real,
    decreases n,
{
    if n > 0 {
        lemma_no_features(weights, n - 1);
        assert(weights(n - 1) * (0 as real) == 0 as real) by (nonlinear_arith);
    }
}

/// The open part of a group counts as nothing where none is open.
pub open spec fn subtotal(group: Option<real>) -> real {
    match group {
        Some(x) => x,
        None => 0 as real,
    }
}

proof fn lemma_reading_is_linear(events: Seq<EvalEvent>, weights: spec_fn(int) -> real)
    requires
        orderly(events),
    ensures
        ({
            let r = reading(blank(), events, weights, false);
            &&& r.positive == positive_after(events)
            &&& !mon_open(events) ==> r.mon == 0 as real
            &&& group_open(events) == (r.group is Some)
            &&& r.total + sign(r.positive) * (r.mon + subtotal(r.group)) == dot(
                weights,
                features(events),
                NUM_EVAL_FEATURES as int,
            )
        }),
    decreases events.len(),
{
    let n = NUM_EVAL_FEATURES as int;
    if events.len() == 0 {
        assert(events =~= Seq::<EvalEvent>::empty());
        lemma_no_features(weights, n);
    } else {
        let before = events.drop_last();
        let e = events.last();
        lemma_reading_is_linear(before, weights);
        let r = reading(blank(), before, weights, false);
        let after = reading(blank(), events, weights, false);
        assert(after == read(r, e, weights, false));
        let s = sign(r.positive);
        let place: int = match e {
            EvalEvent::Hp { .. } => feat::HP as int,
            EvalEvent::Mon { feature, .. } => feature as int,
            EvalEvent::Global { feature, .. } => feature as int,
            EvalEvent::FinishMon => feat::ALIVE as int,
            _ => -1,
        };
        let c = contribution(e, place);
        assert forall|f: int| f != place implies #[trigger] features(events)(f) == features(before)(
            f,
        ) by {
            assert(contribution(e, f) == 0 as real);
            assert(s * (0 as real) == 0 as real) by (nonlinear_arith);
        }
        lemma_dot_change(weights, features(before), features(events), place, s * c, n);
        let w = weights(place);
        assert(w * (s * c) == s * (w * c)) by (nonlinear_arith);
        let m = r.mon;
        let g = subtotal(r.group);
        match e {
            EvalEvent::Sign { positive } => {
                assert(s * c == 0 as real) by (nonlinear_arith)
                    requires
                        c == 0 as real,
                ;
                assert(m + g == 0 as real);
                let t = sign(positive);
                assert(s * (m + g) == 0 as real && t * (m + g) == 0 as real) by (nonlinear_arith)
                    requires
                        m + g == 0 as real,
                ;
            },
            EvalEvent::StartGroup => {},
            EvalEvent::FinishGroup => {
                assert(s * (m + g) == s * m + s * g) by (nonlinear_arith);
                assert(m + 0 as real == m);
            },
            EvalEvent::Hp { .. } | EvalEvent::Mon { .. } => {
                let x = w * c;
                assert(s * (m + x + g) == s * (m + g) + s * x) by (nonlinear_arith);
            },
            EvalEvent::FinishMon => {
                assert(w * (1 as real) == w) by (nonlinear_arith);
                assert(s * (m + w) + s * g == s * (m + g) + s * w) by (nonlinear_arith);
                assert(0 as real + g == g);
            },
            EvalEvent::Global { .. } => {
                let x = w * c;
                assert(s * (m + (g + x)) == s * (m + g) + s * x) by (nonlinear_arith);
            },
        }
    }
}

/// The evaluation is linear: without the clamp, the score of a list of
/// events that closes what it opens is the weighted sum of its features.
pub proof fn lemma_features_dot_weights_is_unclamped_score(
    events: Seq<EvalEvent>,
    weights: spec_fn(int) -> real,
)
    requires
        orderly(events),
        !mon_open(events),
        !group_open(events),
    ensures
        score(events, weights, false) == dot(weights, features(events), NUM_EVAL_FEATURES as int),
{
    lemma_reading_is_linear(events, weights);
    let r = reading(blank(), events, weights, false);
    let s = sign(r.positive);
    assert(s * (0 as real + 0 as real) == 0 as real) by (nonlinear_arith);
}

/// Whether a list of events opens nothing that it does not close.
pub open spec fn tidy(events: Seq<EvalEvent>) -> bool {
    orderly(events) && !mon_open(events) && !group_open(events)
}

proof fn lemma_tidy_join(a: Seq<EvalEvent>, b: Seq<EvalEvent>)
    requires
        tidy(a),
        orderly(b),
    ensures
        orderly(a + b),
        mon_open(a + b) == mon_open(b),
        group_open(a + b) == group_open(b),
    decreases b.len(),
{
    if b.len() == 0 {
        assert(a + b =~= a);
    } else {
        lemma_tidy_join(a, b.drop_last());
        assert((a + b).drop_last() =~= a + b.drop_last());
        assert((a + b).last() == b.last());
    }
}

/// One more event.
proof fn lemma_push(events: Seq<EvalEvent>, e: EvalEvent)
    ensures
        events.push(e).drop_last() == events,
        events.push(e).last() == e,
{
    assert(events.push(e).drop_last() =~= events);
}

/// Whether no event changes the side.
pub open spec fn one_sided(events: Seq<EvalEvent>) -> bool {
    forall|i: int| 0 <= i < events.len() ==> !(#[trigger] events[i] is Sign)
}

proof fn lemma_mon_events(p: Pokemon)
    ensures
        tidy(mon_events(p)),
        one_sided(mon_events(p)),
{
    let hp = EvalEvent::Hp { hp: p.hp, maxhp: p.maxhp };
    let none = Seq::<EvalEvent>::empty();
    assert(tidy(none));
    let first = none.push(hp);
    lemma_push(none, hp);
    assert(orderly(first) && !group_open(first));
    let status = status_events(p);
    let second = if status.len() == 0 {
        first
    } else {
        first.push(status[0])
    };
    if status.len() > 0 {
        lemma_push(first, status[0]);
    }
    assert(orderly(second) && !group_open(second));
    let item = EvalEvent::Mon { feature: feat::ITEM, hundredths: 100 };
    let third = if p.item != crate::state::Items::NONE {
        second.push(item)
    } else {
        second
    };
    lemma_push(second, item);
    assert(orderly(third) && !group_open(third));
    lemma_push(third, EvalEvent::FinishMon);
    assert(tidy(third.push(EvalEvent::FinishMon)));
    assert(mon_events(p) =~= third.push(EvalEvent::FinishMon));
}

/// Whether all events are features outside the clamp.
spec fn all_global(events: Seq<EvalEvent>) -> bool {
    forall|i: int|
        0 <= i < events.len() ==> (#[trigger] events[i] matches EvalEvent::Global { feature, .. }
            && feature < NUM_EVAL_FEATURES)
}

proof fn lemma_active_events(side: Side)
    ensures
        all_global(active_events(side)),
{
}

proof fn lemma_globals(start: Seq<EvalEvent>, globals: Seq<EvalEvent>)
    requires
        orderly(start),
        all_global(globals),
    ensures
        orderly(start + globals),
        mon_open(start + globals) == mon_open(start),
        group_open(start + globals) == group_open(start),
    decreases globals.len(),
{
    if globals.len() == 0 {
        assert(start + globals =~= start);
    } else {
        lemma_globals(start, globals.drop_last());
        assert((start + globals).drop_last() =~= start + globals.drop_last());
        assert((start + globals).last() == globals.last());
    }
}

proof fn lemma_hazard_events(p: Pokemon, side: Side)
    ensures
        tidy(hazard_events(p, side)),
        one_sided(hazard_events(p, side)),
{
    let events = hazard_events(p, side);
    let none = Seq::<EvalEvent>::empty();
    assert(tidy(none));
    let first = none.push(EvalEvent::StartGroup);
    lemma_push(none, EvalEvent::StartGroup);
    assert(orderly(first) && group_open(first) && !mon_open(first));
    let globals = events.subrange(1, events.len() - 1);
    lemma_globals(first, globals);
    let second = first + globals;
    lemma_push(second, EvalEvent::FinishGroup);
    assert(tidy(second.push(EvalEvent::FinishGroup)));
    assert(events =~= second.push(EvalEvent::FinishGroup));
}

proof fn lemma_living_slot(mon: Seq<EvalEvent>, hazards: Seq<EvalEvent>, active: Seq<EvalEvent>)
    requires
        tidy(mon),
        one_sided(mon),
        tidy(hazards),
        one_sided(hazards),
        all_global(active),
    ensures
        tidy(mon + hazards + active),
        one_sided(mon + hazards + active),
{
    lemma_tidy_join(mon, hazards);
    lemma_globals(mon + hazards, active);
    let all = mon + hazards + active;
    assert forall|i: int| 0 <= i < all.len() implies !(#[trigger] all[i] is Sign) by {
        if i < mon.len() {
            assert(all[i] == mon[i]);
        } else if i < mon.len() + hazards.len() {
            assert(all[i] == hazards[i - mon.len()]);
        } else {
            assert(all[i] == active[i - mon.len() - hazards.len()]);
        }
    }
}

proof fn lemma_slot_events(side: Side, i: int)
    ensures
        tidy(slot_events(side, i)),
        one_sided(slot_events(side, i)),
{
    let p = side.pokemon@[i];
    if p.hp > 0 {
        lemma_mon_events(p);
        lemma_hazard_events(p, side);
        lemma_active_events(side);
        let active = if i == side.active_index {
            active_events(side)
        } else {
            Seq::empty()
        };
        lemma_living_slot(mon_events(p), hazard_events(p, side), active);
    }
}

proof fn lemma_slots_events(side: Side, n: int)
    ensures
        tidy(slots_events(side, n)),
        one_sided(slots_events(side, n)),
    decreases n,
{
    if n > 0 {
        lemma_slots_events(side, n - 1);
        lemma_slot_events(side, n - 1);
        lemma_tidy_join(slots_events(side, n - 1), slot_events(side, n - 1));
    }
}

/// What is behind the first event, which says the side.
spec fn behind_sign(events: Seq<EvalEvent>) -> Seq<EvalEvent> {
    events.skip(1)
}

proof fn lemma_team_events(side: Side, positive: bool)
    ensures
        team_events(side, positive) == seq![EvalEvent::Sign { positive }] + behind_sign(
            team_events(side, positive),
        ),
        behind_sign(team_events(side, positive)) == behind_sign(team_events(side, true)),
        tidy(behind_sign(team_events(side, positive))),
        one_sided(behind_sign(team_events(side, positive))),
{
    lemma_slots_events(side, 6);
    let events = team_events(side, positive);
    let slots = slots_events(side, 6);
    let tera = events.skip(1 + slots.len() as int);
    assert(tera =~= Seq::<EvalEvent>::empty() || tera =~= seq![
        EvalEvent::Global { feature: feat::USED_TERA, hundredths: 100 },
    ]);
    lemma_globals(slots, tera);
    assert(behind_sign(events) =~= slots + tera);
    assert(events =~= seq![EvalEvent::Sign { positive }] + behind_sign(events));
    assert(behind_sign(team_events(side, true)) =~= behind_sign(events));
}

proof fn lemma_side_condition_events(side: Side, positive: bool)
    ensures
        side_condition_events(side, positive) == seq![EvalEvent::Sign { positive }] + behind_sign(
            side_condition_events(side, positive),
        ),
        behind_sign(side_condition_events(side, positive)) == behind_sign(
            side_condition_events(side, true),
        ),
        tidy(behind_sign(side_condition_events(side, positive))),
        one_sided(behind_sign(side_condition_events(side, positive))),
{
    let events = side_condition_events(side, positive);
    let none = Seq::<EvalEvent>::empty();
    lemma_globals(none, behind_sign(events));
    assert(none + behind_sign(events) =~= behind_sign(events));
    assert(events =~= seq![EvalEvent::Sign { positive }] + behind_sign(events));
    assert(behind_sign(side_condition_events(side, true)) =~= behind_sign(events));
}

/// A change of side and what belongs to it, behind other events.
proof fn lemma_segment(
    a: Seq<EvalEvent>,
    positive: bool,
    b: Seq<EvalEvent>,
    weights: spec_fn(int) -> real,
    clamp: bool,
)
    requires
        tidy(a),
        tidy(b),
        one_sided(b),
        reading(blank(), a, weights, clamp).mon == 0 as real,
        reading(blank(), a, weights, clamp).group is None,
    ensures
        tidy(a + (seq![EvalEvent::Sign { positive }] + b)),
        score(a + (seq![EvalEvent::Sign { positive }] + b), weights, clamp) == score(
            a,
            weights,
            clamp,
        ) + sign(positive) * score(b, weights, clamp),
        reading(
            blank(),
            a + (seq![EvalEvent::Sign { positive }] + b),
            weights,
            clamp,
        ).mon == 0 as real,
        reading(
            blank(),
            a + (seq![EvalEvent::Sign { positive }] + b),
            weights,
            clamp,
        ).group is None,
        forall|f: int| #[trigger]
            feature(a + (seq![EvalEvent::Sign { positive }] + b), f) == feature(a, f) + sign(
                positive,
            ) * feature(b, f),
{
    let mark = EvalEvent::Sign { positive };
    let c = a.push(mark);
    lemma_push(a, mark);
    assert(a + (seq![mark] + b) =~= c + b);
    assert(tidy(c));
    lemma_tidy_join(c, b);
    lemma_segment_reading(c, positive, b, weights, clamp);
    lemma_closed_reading(b, weights, clamp);
    assert forall|f: int| #[trigger] feature(c + b, f) == feature(a, f) + sign(positive) * feature(
        b,
        f,
    ) by {
        assert(feature(c, f) == feature(a, f)) by {
            let s = sign(positive_after(a));
            assert(s * (0 as real) == 0 as real) by (nonlinear_arith);
        }
        lemma_segment_feature(c, positive, b, f);
    }
}

proof fn lemma_one_sided_stays_positive(b: Seq<EvalEvent>)
    requires
        one_sided(b),
    ensures
        positive_after(b),
    decreases b.len(),
{
    if b.len() > 0 {
        assert(!(b[b.len() - 1] is Sign));
        lemma_one_sided_stays_positive(b.drop_last());
    }
}

proof fn lemma_segment_feature(c: Seq<EvalEvent>, positive: bool, b: Seq<EvalEvent>, f: int)
    requires
        positive_after(c) == positive,
        one_sided(b),
    ensures
        feature(c + b, f) == feature(c, f) + sign(positive) * feature(b, f),
        positive_after(c + b) == positive,
    decreases b.len(),
{
    let s = sign(positive);
    if b.len() == 0 {
        assert(c + b =~= c);
        assert(s * (0 as real) == 0 as real) by (nonlinear_arith);
    } else {
        let before = b.drop_last();
        lemma_segment_feature(c, positive, before, f);
        lemma_one_sided_stays_positive(before);
        assert((c + b).drop_last() =~= c + before);
        assert((c + b).last() == b.last());
        assert(!(b[b.len() - 1] is Sign));
        let x = feature(before, f);
        let y = contribution(b.last(), f);
        assert(s * (x + (1 as real) * y) == s * x + s * y) by (nonlinear_arith);
    }
}

proof fn lemma_segment_reading(
    c: Seq<EvalEvent>,
    positive: bool,
    b: Seq<EvalEvent>,
    weights: spec_fn(int) -> real,
    clamp: bool,
)
    requires
        reading(blank(), c, weights, clamp).positive == positive,
        reading(blank(), c, weights, clamp).mon == 0 as real,
        reading(blank(), c, weights, clamp).group is None,
        one_sided(b),
        orderly(b),
    ensures
        ({
            let r = reading(blank(), c + b, weights, clamp);
            let q = reading(blank(), b, weights, clamp);
            &&& r.positive == positive
            &&& q.positive
            &&& r.mon == q.mon
            &&& r.group == q.group
            &&& group_open(b) == (q.group is Some)
            &&& r.total == score(c, weights, clamp) + sign(positive) * q.total
        }),
    decreases b.len(),
{
    let s = sign(positive);
    if b.len() == 0 {
        assert(c + b =~= c);
        assert(s * (0 as real) == 0 as real) by (nonlinear_arith);
    } else {
        let before = b.drop_last();
        let e = b.last();
        lemma_segment_reading(c, positive, before, weights, clamp);
        assert((c + b).drop_last() =~= c + before);
        assert((c + b).last() == e);
        assert(!(b[b.len() - 1] is Sign));
        let q = reading(blank(), before, weights, clamp);
        let r = reading(blank(), c + before, weights, clamp);
        let q2 = read(q, e, weights, clamp);
        let r2 = read(r, e, weights, clamp);
        let x = q2.total - q.total;
        let t = q.total;
        assert(sign(true) * x == x) by (nonlinear_arith)
            requires
                sign(true) == 1 as real,
        ;
        let y: real = match e {
            EvalEvent::FinishMon => (if clamp && q.mon < 0 as real {
                0 as real
            } else {
                q.mon
            }) + weights(feat::ALIVE as int),
            EvalEvent::Global { feature, hundredths } => if q.group is None {
                weights(feature as int) * value_of(hundredths as int)
            } else {
                0 as real
            },
            EvalEvent::FinishGroup => q.group->0,
            _ => 0 as real,
        };
        assert((1 as real) * y == y) by (nonlinear_arith);
        assert(s * (0 as real) == 0 as real) by (nonlinear_arith);
        assert(q2.total == t + y);
        assert(r2.total == r.total + s * y);
        assert(s * (t + y) == s * t + s * y) by (nonlinear_arith);
    }
}

proof fn lemma_closed_reading(b: Seq<EvalEvent>, weights: spec_fn(int) -> real, clamp: bool)
    requires
        orderly(b),
    ensures
        !mon_open(b) ==> reading(blank(), b, weights, clamp).mon == 0 as real,
        group_open(b) == (reading(blank(), b, weights, clamp).group is Some),
    decreases b.len(),
{
    if b.len() > 0 {
        lemma_closed_reading(b.drop_last(), weights, clamp);
    }
}

proof fn lemma_signs(x: real)
    ensures
        sign(true) * x == x,
        sign(false) * x == -x,
{
    assert((1 as real) * x == x) by (nonlinear_arith);
    assert((-(1 as real)) * x == -x) by (nonlinear_arith);
}

/// A position's score and features, from those of its four parts.
proof fn lemma_base_parts(state: State, weights: spec_fn(int) -> real, clamp: bool)
    ensures
        tidy(base_events(state)),
        ({
            let a = behind_sign(team_events(state.side_one, true));
            let b = behind_sign(team_events(state.side_two, true));
            let c = behind_sign(side_condition_events(state.side_one, true));
            let d = behind_sign(side_condition_events(state.side_two, true));
            &&& score(base_events(state), weights, clamp) == score(a, weights, clamp) - score(
                b,
                weights,
                clamp,
            ) + score(c, weights, clamp) - score(d, weights, clamp)
            &&& forall|f: int| #[trigger]
                feature(base_events(state), f) == feature(a, f) - feature(b, f) + feature(c, f)
                    - feature(d, f)
        }),
{
    lemma_team_events(state.side_one, true);
    lemma_team_events(state.side_two, false);
    lemma_side_condition_events(state.side_one, true);
    lemma_side_condition_events(state.side_two, false);
    let a = behind_sign(team_events(state.side_one, true));
    let b = behind_sign(team_events(state.side_two, true));
    let c = behind_sign(side_condition_events(state.side_one, true));
    let d = behind_sign(side_condition_events(state.side_two, true));
    let none = Seq::<EvalEvent>::empty();
    lemma_segment(none, true, a, weights, clamp);
    let first = none + (seq![EvalEvent::Sign { positive: true }] + a);
    lemma_segment(first, false, b, weights, clamp);
    let second = first + (seq![EvalEvent::Sign { positive: false }] + b);
    lemma_segment(second, true, c, weights, clamp);
    let third = second + (seq![EvalEvent::Sign { positive: true }] + c);
    lemma_segment(third, false, d, weights, clamp);
    let fourth = third + (seq![EvalEvent::Sign { positive: false }] + d);
    assert(base_events(state) =~= fourth);
    lemma_signs(score(a, weights, clamp));
    lemma_signs(score(b, weights, clamp));
    lemma_signs(score(c, weights, clamp));
    lemma_signs(score(d, weights, clamp));
    assert forall|f: int| #[trigger] feature(fourth, f) == feature(a, f) - feature(b, f) + feature(
        c,
        f,
    ) - feature(d, f) by {
        lemma_signs(feature(a, f));
        lemma_signs(feature(b, f));
        lemma_signs(feature(c, f));
        lemma_signs(feature(d, f));
        assert(feature(first, f) == feature(none, f) + sign(true) * feature(a, f));
        assert(feature(second, f) == feature(first, f) + sign(false) * feature(b, f));
        assert(feature(third, f) == feature(second, f) + sign(true) * feature(c, f));
        assert(feature(fourth, f) == feature(third, f) + sign(false) * feature(d, f));
    }
}

/// The walk closes what it opens, so the evaluation of a position without
/// the clamp is the weighted sum of its features.
pub proof fn lemma_base_evaluation_is_linear(state: State, weights: spec_fn(int) -> real)
    ensures
        score(base_events(state), weights, false) == dot(
            weights,
            features(base_events(state)),
            NUM_EVAL_FEATURES as int,
        ),
{
    lemma_base_parts(state, weights, false);
    lemma_features_dot_weights_is_unclamped_score(base_events(state), weights);
}

/// Swapping the sides turns the sign of the score, clamped or not, and of
/// every feature.
pub proof fn lemma_base_evaluation_is_side_symmetric(
    state: State,
    weights: spec_fn(int) -> real,
    clamp: bool,
)
    ensures
        score(base_events(state.swapped()), weights, clamp) == -score(
            base_events(state),
            weights,
            clamp,
        ),
        forall|f: int| #[trigger]
            feature(base_events(state.swapped()), f) == -feature(base_events(state), f),
{
    lemma_base_parts(state, weights, clamp);
    lemma_base_parts(state.swapped(), weights, clamp);
    assert forall|f: int| #[trigger] feature(base_events(state.swapped()), f) == -feature(
        base_events(state),
        f,
    ) by {
        assert(feature(base_events(state), f) == feature(base_events(state), f));
    }
}

/// With the clamp on, what a living Pokemon adds to the score is its alive
/// bonus and its other part as far as that is not negative.
pub proof fn lemma_clamp_binds_on_negative_part(
    p: Pokemon,
    weights: spec_fn(int) -> real,
    clamp: bool,
)
    ensures
        ({
            let part = reading(blank(), mon_events(p).drop_last(), weights, clamp).mon;
            score(mon_events(p), weights, clamp) == (if clamp && part < 0 as real {
                0 as real
            } else {
                part
            }) + weights(feat::ALIVE as int)
        }),
        score(mon_events(p), weights, true) >= score(mon_events(p), weights, false),
{
    lemma_mon_part(p, weights, clamp);
    lemma_mon_part(p, weights, true);
    lemma_mon_part(p, weights, false);
}

/// How much the clamp adds for a living Pokemon: what its part is below zero.
pub open spec fn clamp_gain(p: Pokemon, weights: spec_fn(int) -> real) -> real {
    let part = reading(blank(), mon_events(p).drop_last(), weights, false).mon;
    if part < 0 as real {
        -part
    } else {
        0 as real
    }
}

/// How much the clamp adds for the living among the first `n` of a side.
pub open spec fn team_gain(side: Side, n: int, weights: spec_fn(int) -> real) -> real
    decreases n,
{
    if n <= 0 {
        0 as real
    } else {
        team_gain(side, n - 1, weights) + if side.pokemon@[n - 1].hp > 0 {
            clamp_gain(side.pokemon@[n - 1], weights)
        } else {
            0 as real
        }
    }
}

/// Whether no event closes a Pokemon.
spec fn no_mon(events: Seq<EvalEvent>) -> bool {
    forall|i: int| 0 <= i < events.len() ==> !(#[trigger] events[i] is FinishMon)
}

proof fn lemma_no_mon(events: Seq<EvalEvent>, weights: spec_fn(int) -> real)
    requires
        no_mon(events),
    ensures
        reading(blank(), events, weights, true) == reading(blank(), events, weights, false),
    decreases events.len(),
{
    if events.len() > 0 {
        assert(!(events[events.len() - 1] is FinishMon));
        assert(no_mon(events.drop_last())) by {
            assert forall|i: int| 0 <= i < events.drop_last().len() implies !(
            #[trigger] events.drop_last()[i] is FinishMon) by {
                assert(events.drop_last()[i] == events[i]);
            }
        }
        lemma_no_mon(events.drop_last(), weights);
    }
}

/// The scores of two closed parts of one side add up.
proof fn lemma_joined_score(
    a: Seq<EvalEvent>,
    b: Seq<EvalEvent>,
    weights: spec_fn(int) -> real,
    clamp: bool,
)
    requires
        tidy(a),
        one_sided(a),
        orderly(b),
        one_sided(b),
    ensures
        score(a + b, weights, clamp) == score(a, weights, clamp) + score(b, weights, clamp),
{
    let none = Seq::<EvalEvent>::empty();
    lemma_segment_reading(none, true, a, weights, clamp);
    lemma_closed_reading(a, weights, clamp);
    lemma_segment_reading(a, true, b, weights, clamp);
    lemma_signs(score(b, weights, clamp));
}

proof fn lemma_slot_gain(side: Side, i: int, weights: spec_fn(int) -> real)
    ensures
        score(slot_events(side, i), weights, true) == score(slot_events(side, i), weights, false)
            + if side.pokemon@[i].hp > 0 {
            clamp_gain(side.pokemon@[i], weights)
        } else {
            0 as real
        },
{
    let p = side.pokemon@[i];
    if p.hp > 0 {
        lemma_mon_events(p);
        lemma_hazard_events(p, side);
        lemma_active_events(side);
        let mon = mon_events(p);
        let hazards = hazard_events(p, side);
        let active = if i == side.active_index {
            active_events(side)
        } else {
            Seq::empty()
        };
        let rest = hazards + active;
        lemma_globals(hazards, active);
        assert forall|k: int| 0 <= k < rest.len() implies !(#[trigger] rest[k] is Sign) && !(
        rest[k] is FinishMon) by {
            if k < hazards.len() {
                assert(rest[k] == hazards[k]);
            } else {
                assert(rest[k] == active[k - hazards.len()]);
            }
        }
        assert(slot_events(side, i) =~= mon + rest);
        lemma_joined_score(mon, rest, weights, true);
        lemma_joined_score(mon, rest, weights, false);
        lemma_no_mon(rest, weights);
        lemma_mon_part(p, weights, true);
        lemma_mon_part(p, weights, false);
    }
}

proof fn lemma_slots_gain(side: Side, n: int, weights: spec_fn(int) -> real)
    ensures
        score(slots_events(side, n), weights, true) == score(slots_events(side, n), weights, false)
            + team_gain(side, n, weights),
    decreases n,
{
    if n > 0 {
        lemma_slots_gain(side, n - 1, weights);
        lemma_slot_gain(side, n - 1, weights);
        lemma_slots_events(side, n - 1);
        lemma_slot_events(side, n - 1);
        lemma_joined_score(slots_events(side, n - 1), slot_events(side, n - 1), weights, true);
        lemma_joined_score(slots_events(side, n - 1), slot_events(side, n - 1), weights, false);
    }
}

proof fn lemma_team_gain(side: Side, weights: spec_fn(int) -> real)
    ensures
        ({
            let team = behind_sign(team_events(side, true));
            let conditions = behind_sign(side_condition_events(side, true));
            &&& score(team, weights, true) == score(team, weights, false) + team_gain(
                side,
                6,
                weights,
            )
            &&& score(conditions, weights, true) == score(conditions, weights, false)
        }),
{
    let events = team_events(side, true);
    let slots = slots_events(side, 6);
    let tera = events.skip(1 + slots.len() as int);
    assert(tera =~= Seq::<EvalEvent>::empty() || tera =~= seq![
        EvalEvent::Global { feature: feat::USED_TERA, hundredths: 100 },
    ]);
    assert(behind_sign(events) =~= slots + tera);
    lemma_slots_events(side, 6);
    lemma_globals(Seq::empty(), tera);
    assert(Seq::<EvalEvent>::empty() + tera =~= tera);
    lemma_joined_score(slots, tera, weights, true);
    lemma_joined_score(slots, tera, weights, false);
    lemma_no_mon(tera, weights);
    lemma_slots_gain(side, 6, weights);
    lemma_no_mon(behind_sign(side_condition_events(side, true)), weights);
}

/// The clamp adds, for side one and against side two, just what the parts of
/// the living Pokemon are below zero.
pub proof fn lemma_clamp_gains(state: State, weights: spec_fn(int) -> real)
    ensures
        score(base_events(state), weights, true) - score(base_events(state), weights, false)
            == team_gain(state.side_one, 6, weights) - team_gain(state.side_two, 6, weights),
{
    lemma_base_parts(state, weights, true);
    lemma_base_parts(state, weights, false);
    lemma_team_gain(state.side_one, weights);
    lemma_team_gain(state.side_two, weights);
}

proof fn lemma_mon_part(p: Pokemon, weights: spec_fn(int) -> real, clamp: bool)
    ensures
        ({
            let part = reading(blank(), mon_events(p).drop_last(), weights, clamp).mon;
            &&& part == reading(blank(), mon_events(p).drop_last(), weights, false).mon
            &&& score(mon_events(p), weights, clamp) == (if clamp && part < 0 as real {
                0 as real
            } else {
                part
            }) + weights(feat::ALIVE as int)
        }),
{
    let events = mon_events(p);
    let body = events.drop_last();
    assert(events.last() is FinishMon);
    assert forall|i: int| 0 <= i < body.len() implies (#[trigger] body[i] is Hp || body[i] is Mon) by {
        assert(body[i] == events[i]);
    }
    lemma_mon_body(body, weights, clamp);
    let x = (if clamp && reading(blank(), body, weights, clamp).mon < 0 as real {
        0 as real
    } else {
        reading(blank(), body, weights, clamp).mon
    }) + weights(feat::ALIVE as int);
    assert((1 as real) * x == x) by (nonlinear_arith);
}

proof fn lemma_mon_body(body: Seq<EvalEvent>, weights: spec_fn(int) -> real, clamp: bool)
    requires
        forall|i: int| 0 <= i < body.len() ==> (#[trigger] body[i] is Hp || body[i] is Mon),
    ensures
        reading(blank(), body, weights, clamp) == reading(blank(), body, weights, false),
        reading(blank(), body, weights, clamp).positive,
        reading(blank(), body, weights, clamp).total == 0 as real,
    decreases body.len(),
{
    if body.len() > 0 {
        assert(body[body.len() - 1] is Hp || body[body.len() - 1] is Mon);
        lemma_mon_body(body.drop_last(), weights, clamp);
    }
}

} // verus!
