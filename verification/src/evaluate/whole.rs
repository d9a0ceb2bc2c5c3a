//! The whole evaluation in exact arithmetic, matchups included, and what
//! holds of it.

use crate::evaluate::feat;
use crate::evaluate::laws::{
    dot, feature, features, lemma_base_evaluation_is_linear,
    lemma_base_evaluation_is_side_symmetric, lemma_clamp_gains,
    lemma_pair_features_reconstruct_difference, score, side_feature, team_gain,
};
use crate::evaluate::matchup_laws::{
    lemma_matchup_features_are_side_symmetric, matchup_features, mirrored,
};
use crate::evaluate::matchups::{MatchupTally, SideMatchups};
use crate::evaluate::schema::NUM_EVAL_FEATURES;
use crate::evaluate::walk::base_events;
use crate::matchup::cache::{collision_free, truthful, CacheEntry};
use crate::matchup::kernel::{filled, pairs_within, MatchupKernel};
use crate::matchup::pair::{DamageFn, Duelists};
use crate::matchup::symmetry::{lemma_swapped_kernel, side_blind};
use crate::state::State;
use vstd::prelude::*;

verus! {

/// What the matchups of a side add to its feature `f`.
pub open spec fn matchup_part(
    own: SideMatchups,
    foe: SideMatchups,
    bench_scale: real,
    f: int,
) -> real {
    if feat::REVENGE_COVERAGE <= f < NUM_EVAL_FEATURES {
        matchup_features(own, foe, bench_scale)[f - feat::REVENGE_COVERAGE]
    } else {
        0 as real
    }
}

/// Feature `f` of one side of a position.
pub open spec fn whole_side_feature(
    state: State,
    tally: MatchupTally,
    bench_scale: real,
    positive: bool,
    f: int,
) -> real {
    side_feature(base_events(state), positive, f) + if positive {
        matchup_part(tally.one, tally.two, bench_scale, f)
    } else {
        matchup_part(tally.two, tally.one, bench_scale, f)
    }
}

/// Feature `f` of a position, side one minus side two.
pub open spec fn whole_feature(
    state: State,
    tally: MatchupTally,
    bench_scale: real,
    f: int,
) -> real {
    feature(base_events(state), f) + (matchup_part(tally.one, tally.two, bench_scale, f)
        - matchup_part(tally.two, tally.one, bench_scale, f))
}

/// The feature vector of a position.
pub open spec fn whole_features(
    state: State,
    tally: MatchupTally,
    bench_scale: real,
) -> spec_fn(int) -> real {
    |f: int| whole_feature(state, tally, bench_scale, f)
}

/// The weighted sum of the first `n` matchup features of a side.
pub open spec fn matchup_score(
    own: SideMatchups,
    foe: SideMatchups,
    bench_scale: real,
    weights: spec_fn(int) -> real,
    n: int,
) -> real
    decreases n,
{
    if n <= 0 {
        0 as real
    } else {
        matchup_score(own, foe, bench_scale, weights, n - 1) + weights(
            feat::REVENGE_COVERAGE + n - 1,
        ) * matchup_features(own, foe, bench_scale)[n - 1]
    }
}

/// The linear evaluation of a position: the score of the walk and of both
/// sides' matchups.
pub open spec fn whole_score(
    state: State,
    tally: MatchupTally,
    bench_scale: real,
    weights: spec_fn(int) -> real,
    clamp: bool,
) -> real {
    score(base_events(state), weights, clamp) + (matchup_score(
        tally.one,
        tally.two,
        bench_scale,
        weights,
        6,
    ) - matchup_score(tally.two, tally.one, bench_scale, weights, 6))
}

/// The per-side vectors differ by the feature vector.
pub proof fn lemma_whole_pair_features_reconstruct_difference(
    state: State,
    tally: MatchupTally,
    bench_scale: real,
    f: int,
)
    ensures
        whole_feature(state, tally, bench_scale, f) == whole_side_feature(
            state,
            tally,
            bench_scale,
            true,
            f,
        ) - whole_side_feature(state, tally, bench_scale, false, f),
{
    lemma_pair_features_reconstruct_difference(base_events(state), f);
}

proof fn lemma_dot_of_sum(
    weights: spec_fn(int) -> real,
    a: spec_fn(int) -> real,
    b: spec_fn(int) -> real,
    sum: spec_fn(int) -> real,
    n: int,
)
    requires
        forall|f: int| #[trigger] sum(f) == a(f) + b(f),
    ensures
        dot(weights, sum, n) == dot(weights, a, n) + dot(weights, b, n),
    decreases n,
{
    if n > 0 {
        lemma_dot_of_sum(weights, a, b, sum, n - 1);
        let w = weights(n - 1);
        let x = a(n - 1);
        let y = b(n - 1);
        assert(sum(n - 1) == x + y);
        assert(w * (x + y) == w * x + w * y) by (nonlinear_arith);
    }
}

/// The matchup features are the last of the vector.
proof fn lemma_dot_of_matchups(
    tally: MatchupTally,
    bench_scale: real,
    weights: spec_fn(int) -> real,
    part: spec_fn(int) -> real,
    n: int,
)
    requires
        0 <= n <= NUM_EVAL_FEATURES,
        forall|f: int| #[trigger]
            part(f) == matchup_part(tally.one, tally.two, bench_scale, f) - matchup_part(
                tally.two,
                tally.one,
                bench_scale,
                f,
            ),
    ensures
        dot(weights, part, n) == matchup_score(
            tally.one,
            tally.two,
            bench_scale,
            weights,
            n - feat::REVENGE_COVERAGE,
        ) - matchup_score(
            tally.two,
            tally.one,
            bench_scale,
            weights,
            n - feat::REVENGE_COVERAGE,
        ),
    decreases n,
{
    if n > 0 {
        lemma_dot_of_matchups(tally, bench_scale, weights, part, n - 1);
        let w = weights(n - 1);
        let x = matchup_part(tally.one, tally.two, bench_scale, n - 1);
        let y = matchup_part(tally.two, tally.one, bench_scale, n - 1);
        assert(part(n - 1) == x - y);
        assert(w * (x - y) == w * x - w * y) by (nonlinear_arith);
        if n <= feat::REVENGE_COVERAGE {
            assert(w * (0 as real) == 0 as real) by (nonlinear_arith);
        }
    }
}

/// The evaluation is linear: without the clamp, the score of a position is
/// the weighted sum of its feature vector.
pub proof fn lemma_whole_evaluation_is_linear(
    state: State,
    tally: MatchupTally,
    bench_scale: real,
    weights: spec_fn(int) -> real,
)
    ensures
        whole_score(state, tally, bench_scale, weights, false) == dot(
            weights,
            whole_features(state, tally, bench_scale),
            NUM_EVAL_FEATURES as int,
        ),
{
    let base = features(base_events(state));
    let part = |f: int|
        matchup_part(tally.one, tally.two, bench_scale, f) - matchup_part(
            tally.two,
            tally.one,
            bench_scale,
            f,
        );
    lemma_base_evaluation_is_linear(state, weights);
    lemma_dot_of_matchups(tally, bench_scale, weights, part, NUM_EVAL_FEATURES as int);
    lemma_dot_of_sum(
        weights,
        base,
        part,
        whole_features(state, tally, bench_scale),
        NUM_EVAL_FEATURES as int,
    );
}

/// Matchups that have no weight can be left out of the score.
pub proof fn lemma_weightless_matchups_add_nothing(
    state: State,
    tally: MatchupTally,
    bench_scale: real,
    weights: spec_fn(int) -> real,
    clamp: bool,
)
    requires
        forall|f: int|
            feat::REVENGE_COVERAGE <= f < NUM_EVAL_FEATURES ==> #[trigger] weights(f) == 0 as real,
    ensures
        whole_score(state, tally, bench_scale, weights, clamp) == score(
            base_events(state),
            weights,
            clamp,
        ),
{
    lemma_weightless(tally.one, tally.two, bench_scale, weights, 6);
    lemma_weightless(tally.two, tally.one, bench_scale, weights, 6);
}

proof fn lemma_weightless(
    own: SideMatchups,
    foe: SideMatchups,
    bench_scale: real,
    weights: spec_fn(int) -> real,
    n: int,
)
    requires
        n <= 6,
        forall|f: int|
            feat::REVENGE_COVERAGE <= f < NUM_EVAL_FEATURES ==> #[trigger] weights(f) == 0 as real,
    ensures
        matchup_score(own, foe, bench_scale, weights, n) == 0 as real,
    decreases n,
{
    if n > 0 {
        lemma_weightless(own, foe, bench_scale, weights, n - 1);
        let x = matchup_features(own, foe, bench_scale)[n - 1];
        assert(weights(feat::REVENGE_COVERAGE + n - 1) == 0 as real);
        assert((0 as real) * x == 0 as real) by (nonlinear_arith);
    }
}

proof fn lemma_same_matchup_score(
    own: SideMatchups,
    foe: SideMatchups,
    other_own: SideMatchups,
    other_foe: SideMatchups,
    bench_scale: real,
    weights: spec_fn(int) -> real,
    n: int,
)
    requires
        matchup_features(own, foe, bench_scale) == matchup_features(
            other_own,
            other_foe,
            bench_scale,
        ),
    ensures
        matchup_score(own, foe, bench_scale, weights, n) == matchup_score(
            other_own,
            other_foe,
            bench_scale,
            weights,
            n,
        ),
    decreases n,
{
    if n > 0 {
        lemma_same_matchup_score(own, foe, other_own, other_foe, bench_scale, weights, n - 1);
    }
}

/// Swapping the sides turns the sign of the score, clamped or not, and of
/// every feature.
pub proof fn lemma_whole_evaluation_is_side_symmetric(
    state: State,
    k: MatchupKernel,
    l: MatchupKernel,
    tally: MatchupTally,
    swapped: MatchupTally,
    bench_scale: real,
    weights: spec_fn(int) -> real,
    clamp: bool,
)
    requires
        state.wf(),
        mirrored(k, l),
        tally.one.tells(state, k, true),
        tally.two.tells(state, k, false),
        swapped.one.tells(state.swapped(), l, true),
        swapped.two.tells(state.swapped(), l, false),
    ensures
        whole_score(state.swapped(), swapped, bench_scale, weights, clamp) == -whole_score(
            state,
            tally,
            bench_scale,
            weights,
            clamp,
        ),
        forall|f: int| #[trigger]
            whole_feature(state.swapped(), swapped, bench_scale, f) == -whole_feature(
                state,
                tally,
                bench_scale,
                f,
            ),
{
    lemma_base_evaluation_is_side_symmetric(state, weights, clamp);
    lemma_matchup_features_are_side_symmetric(
        state,
        k,
        l,
        tally.one,
        tally.two,
        swapped.one,
        swapped.two,
        bench_scale,
    );
    lemma_same_matchup_score(
        swapped.one,
        swapped.two,
        tally.two,
        tally.one,
        bench_scale,
        weights,
        6,
    );
    lemma_same_matchup_score(
        swapped.two,
        swapped.one,
        tally.one,
        tally.two,
        bench_scale,
        weights,
        6,
    );
    assert forall|f: int| #[trigger]
        whole_feature(state.swapped(), swapped, bench_scale, f) == -whole_feature(
            state,
            tally,
            bench_scale,
            f,
        ) by {
        assert(feature(base_events(state.swapped()), f) == -feature(base_events(state), f));
    }
}

/// The clamp changes a whole evaluation by what the parts of the living
/// Pokemon are below zero: up for side one's, down for side two's.
pub proof fn lemma_clamp_changes_the_whole_evaluation(
    state: State,
    tally: MatchupTally,
    bench_scale: real,
    weights: spec_fn(int) -> real,
)
    ensures
        whole_score(state, tally, bench_scale, weights, true) == whole_score(
            state,
            tally,
            bench_scale,
            weights,
            false,
        ) + (team_gain(state.side_one, 6, weights) - team_gain(state.side_two, 6, weights)),
{
    lemma_clamp_gains(state, weights);
}

/// The whole evaluation is fair to both sides, by the damage formula: where
/// that is blind to which side is called one, every feature and the score of
/// a position with the sides swapped are the opposites of those of the
/// position, whatever truthful caches the two kernels were worked out with.
pub proof fn lemma_a_blind_formula_is_fair(
    state: State,
    k: MatchupKernel,
    l: MatchupKernel,
    tally: MatchupTally,
    swapped: MatchupTally,
    bench_scale: real,
    weights: spec_fn(int) -> real,
    clamp: bool,
    calc: DamageFn,
    caches: (Seq<CacheEntry>, Seq<CacheEntry>),
    world: spec_fn(Duelists) -> bool,
)
    requires
        state.wf(),
        side_blind(calc),
        truthful(caches.0, world, calc),
        truthful(caches.1, world, calc),
        collision_free(world, calc),
        pairs_within(state, world),
        pairs_within(state.swapped(), world),
        k.wf(state),
        k.one_to_two@ == filled(state, calc, caches.0, 36).one,
        k.two_to_one@ == filled(state, calc, caches.0, 36).two,
        l.wf(state.swapped()),
        l.one_to_two@ == filled(state.swapped(), calc, caches.1, 36).one,
        l.two_to_one@ == filled(state.swapped(), calc, caches.1, 36).two,
        tally.one.tells(state, k, true),
        tally.two.tells(state, k, false),
        swapped.one.tells(state.swapped(), l, true),
        swapped.two.tells(state.swapped(), l, false),
    ensures
        whole_score(state.swapped(), swapped, bench_scale, weights, clamp) == -whole_score(
            state,
            tally,
            bench_scale,
            weights,
            clamp,
        ),
        forall|f: int| #[trigger]
            whole_feature(state.swapped(), swapped, bench_scale, f) == -whole_feature(
                state,
                tally,
                bench_scale,
                f,
            ),
{
    lemma_swapped_kernel(k, l, state, calc, caches.0, caches.1, world);
    assert(mirrored(k, l));
    lemma_whole_evaluation_is_side_symmetric(
        state,
        k,
        l,
        tally,
        swapped,
        bench_scale,
        weights,
        clamp,
    );
}

} // verus!
