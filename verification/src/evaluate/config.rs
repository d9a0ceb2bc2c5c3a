//! Which evaluator a search uses.

use crate::evaluate::context::EvalContextModel;
use crate::evaluate::feat;
use crate::evaluate::schema::NUM_EVAL_FEATURES;
use crate::evaluate::tree::EvalTreeModel;
use crate::float32::Float32;
use vstd::prelude::*;

verus! {

/// Outcome-tuned production weights, fit with semantic sign and range
/// constraints, as single-precision bit patterns in the order of the feature
/// names. The burn feature is a physical-move-count multiplier and the five
/// boost weights multiply a fixed table of stat stages; everything else
/// multiplies a count or a flag.
pub const DEFAULT_EVAL_WEIGHTS: [u32; 36] = [
    0x427b1158,
    0x42245298,
    0x00000000,
    0xc2b48320,
    0xbed156ef,
    0xc1cce3e0,
    0xc296e867,
    0xc1c58a20,
    0x00000000,
    0x4253a712,
    0x00000000,
    0x3fac64a1,
    0x40919331,
    0x00000000,
    0x41c76f5d,
    0x41bd05d1,
    0xc203e864,
    0x42d03757,
    0xc1232362,
    0x00000000,
    0x00000000,
    0x00000000,
    0x00000000,
    0x00000000,
    0x42700000,
    0xc03eb615,
    0xc18ac337,
    0xc1f00000,
    0x00000000,
    0xc2423109,
    0x40487c9d,
    0x42225c32,
    0x41677523,
    0x41a14c04,
    0x409bbea6,
    0x406f8e32,
];

/// How much a matchup credited to a benched Pokemon is worth relative to the
/// same matchup of the active one, as a bit pattern: one half. A bench threat
/// has to pay an entry before its matchups become real.
pub const DEFAULT_BENCH_SCALE: u32 = 0x3f00_0000;

/// Which evaluator to use, and its parameters.
#[derive(Clone, Debug)]
pub struct EvalConfig {
    pub weights: [Float32; 36],
    pub mon_clamp: bool,
    pub bench_scale: Float32,
    pub tree_model: Option<EvalTreeModel>,
    pub context_model: Option<EvalContextModel>,
}

/// The weights that bit patterns stand for.
pub open spec fn weights_from(bits: Seq<u32>) -> Seq<Float32> {
    Seq::new(bits.len(), |i: int| Float32 { bits: bits[i] })
}

fn decode(bits: &[u32; 36]) -> (r: [Float32; 36])
    ensures
        r@ == weights_from(bits@),
{
    let mut r: [Float32; 36] = [Float32 { bits: 0 };36];
    let mut i: usize = 0;
    while i < 36
        invariant
            i <= 36,
            forall|k: int| 0 <= k < i ==> r@[k] == (Float32 { bits: bits@[k] }),
        decreases 36 - i,
    {
        r[i] = Float32 { bits: bits[i] };
        i = i + 1;
    }
    assert(r@ =~= weights_from(bits@));
    r
}

impl EvalConfig {
    /// Whether this is the production evaluator: the tuned weights, without
    /// the clamp and without a model.
    pub open spec fn is_default(self) -> bool {
        &&& self.weights@ == weights_from(DEFAULT_EVAL_WEIGHTS@)
        &&& !self.mon_clamp
        &&& self.bench_scale.bits == DEFAULT_BENCH_SCALE
        &&& self.tree_model is None
        &&& self.context_model is None
    }

    /// The linear evaluator with given weights.
    pub fn new(weights: [Float32; 36], mon_clamp: bool) -> (r: EvalConfig)
        ensures
            r.weights == weights,
            r.mon_clamp == mon_clamp,
            r.bench_scale.bits == DEFAULT_BENCH_SCALE,
            r.tree_model is None,
            r.context_model is None,
    {
        EvalConfig {
            weights,
            mon_clamp,
            bench_scale: Float32 { bits: DEFAULT_BENCH_SCALE },
            tree_model: None,
            context_model: None,
        }
    }

    /// The evaluator of a tree model, on top of its base weights.
    pub fn from_tree_model(model: EvalTreeModel) -> (r: EvalConfig)
        ensures
            r.weights == model.base_weights,
            !r.mon_clamp,
            r.bench_scale.bits == DEFAULT_BENCH_SCALE,
            r.tree_model == Some(model),
            r.context_model is None,
    {
        EvalConfig {
            weights: model.base_weights,
            mon_clamp: false,
            bench_scale: Float32 { bits: DEFAULT_BENCH_SCALE },
            tree_model: Some(model),
            context_model: None,
        }
    }

    /// The evaluator of a context model, on top of its base weights.
    pub fn from_context_model(model: EvalContextModel) -> (r: EvalConfig)
        ensures
            r.weights == model.base_weights,
            !r.mon_clamp,
            r.bench_scale.bits == DEFAULT_BENCH_SCALE,
            r.tree_model is None,
            r.context_model == Some(model),
    {
        EvalConfig {
            weights: model.base_weights,
            mon_clamp: false,
            bench_scale: Float32 { bits: DEFAULT_BENCH_SCALE },
            tree_model: None,
            context_model: Some(model),
        }
    }

    /// The same evaluator with another bench scale.
    pub fn with_bench_scale(self, bench_scale: Float32) -> (r: EvalConfig)
        ensures
            r == (EvalConfig { bench_scale, ..self }),
    {
        EvalConfig {
            weights: self.weights,
            mon_clamp: self.mon_clamp,
            bench_scale,
            tree_model: self.tree_model,
            context_model: self.context_model,
        }
    }
}

impl Default for EvalConfig {
    fn default() -> (r: EvalConfig)
        ensures
            r.is_default(),
    {
        EvalConfig::new(decode(&DEFAULT_EVAL_WEIGHTS), false)
    }
}

/// What an evaluation adds up.
#[derive(Clone, Copy, Debug, PartialEq, Eq, Structural)]
pub enum EvalPlan {
    /// Both sides' features go through the context model.
    Context,
    /// The feature differences go through the tree model.
    Trees,
    /// The weighted sum, with or without the matchup features.
    Linear { matchups: bool },
}

impl EvalConfig {
    /// What the evaluator adds up: a context model goes before a tree model,
    /// and matchups are left out of a weighted sum that gives none of them
    /// any weight.
    pub open spec fn plan_spec(self) -> EvalPlan {
        if self.context_model is Some {
            EvalPlan::Context
        } else if self.tree_model is Some {
            EvalPlan::Trees
        } else {
            EvalPlan::Linear {
                matchups: exists|i: int|
                    feat::REVENGE_COVERAGE <= i < NUM_EVAL_FEATURES && (
                    #[trigger] self.weights@[i]).units() != 0,
            }
        }
    }

    pub fn plan(&self) -> (r: EvalPlan)
        ensures
            r == self.plan_spec(),
    {
        if self.context_model.is_some() {
            return EvalPlan::Context;
        }
        if self.tree_model.is_some() {
            return EvalPlan::Trees;
        }
        let mut matchups = false;
        let mut i: usize = feat::REVENGE_COVERAGE;
        while i < NUM_EVAL_FEATURES
            invariant
                feat::REVENGE_COVERAGE <= i <= NUM_EVAL_FEATURES,
                matchups == exists|k: int|
                    feat::REVENGE_COVERAGE <= k < i && (#[trigger] self.weights@[k]).units() != 0,
            decreases NUM_EVAL_FEATURES - i,
        {
            if !self.weights[i].is_zero() {
                matchups = true;
                assert(self.weights@[i as int].units() != 0);
            }
            i = i + 1;
        }
        EvalPlan::Linear { matchups }
    }
}

} // verus!
