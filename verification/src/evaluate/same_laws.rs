//! Evaluators that are the same evaluate the same.

use crate::evaluate::config::EvalConfig;
use crate::evaluate::same::{nodes_alike, tree_alike, tree_models_alike};
use crate::evaluate::tree::{
    leaf_from, leaves, node_wf, oriented, tree_wf, EvalTreeModel, EvalTreeNode,
};
use crate::evaluate::tree_laws::{correction, exact, exact_dot, exact_sum, tree_evaluation};
use crate::float32::Float32;
use vstd::prelude::*;

verus! {

/// Evaluators that are the same have the same numbers, and neither of two has
/// a model that the other has not.
pub proof fn lemma_same_evaluators_have_the_same_numbers(a: EvalConfig, b: EvalConfig)
    requires
        a.alike(b),
    ensures
        forall|i: int|
            0 <= i < 36 ==> (#[trigger] a.weights@[i]).units() == b.weights@[i].units()
                && !a.weights@[i].nan() && !b.weights@[i].nan(),
        a.mon_clamp == b.mon_clamp,
        a.bench_scale.units() == b.bench_scale.units(),
        a.tree_model is Some == b.tree_model is Some,
        a.context_model is Some == b.context_model is Some,
{
    assert forall|i: int| 0 <= i < 36 implies (#[trigger] a.weights@[i]).units()
        == b.weights@[i].units() && !a.weights@[i].nan() && !b.weights@[i].nan() by {
        assert(a.weights@[i].equals(b.weights@[i]));
    }
}

/// Context models that are the same have the same numbers, place by place.
pub proof fn lemma_same_context_models_have_the_same_numbers(
    a: EvalConfig,
    b: EvalConfig,
    i: int,
    j: int,
)
    requires
        a.alike(b),
        a.context_model is Some,
    ensures
        ({
            let m = a.context_model->0;
            let n = b.context_model->0;
            &&& m.k.units() == n.k.units()
            &&& m.correction_clip.units() == n.correction_clip.units()
            &&& 0 <= i < 36 ==> m.base_weights@[i].units() == n.base_weights@[i].units()
            &&& 0 <= i < m.diff_scale@.len() ==> m.diff_scale@[i].units() == n.diff_scale@[i].units()
            &&& 0 <= i < m.total_mean@.len() ==> m.total_mean@[i].units() == n.total_mean@[i].units()
            &&& 0 <= i < m.total_scale@.len() ==> m.total_scale@[i].units()
                == n.total_scale@[i].units()
            &&& m.output_weights@.len() == n.output_weights@.len()
            &&& 0 <= i < m.output_weights@.len() ==> m.output_weights@[i].units()
                == n.output_weights@[i].units()
            &&& 0 <= i < m.context_bias@.len() ==> m.context_bias@[i].units()
                == n.context_bias@[i].units()
            &&& 0 <= i < m.difference_weights@.len() && 0 <= j < m.difference_weights@[i]@.len()
                ==> m.difference_weights@[i]@[j].units() == n.difference_weights@[i]@[j].units()
            &&& 0 <= i < m.context_weights@.len() && 0 <= j < m.context_weights@[i]@.len()
                ==> m.context_weights@[i]@[j].units() == n.context_weights@[i]@[j].units()
        }),
{
    let m = a.context_model->0;
    let n = b.context_model->0;
    if 0 <= i < 36 {
        assert(m.base_weights@[i].equals(n.base_weights@[i]));
    }
    if 0 <= i < m.diff_scale@.len() {
        assert(m.diff_scale@[i].equals(n.diff_scale@[i]));
    }
    if 0 <= i < m.total_mean@.len() {
        assert(m.total_mean@[i].equals(n.total_mean@[i]));
    }
    if 0 <= i < m.total_scale@.len() {
        assert(m.total_scale@[i].equals(n.total_scale@[i]));
    }
    if 0 <= i < m.output_weights@.len() {
        assert(m.output_weights@[i].equals(n.output_weights@[i]));
    }
    if 0 <= i < m.context_bias@.len() {
        assert(m.context_bias@[i].equals(n.context_bias@[i]));
    }
    if 0 <= i < m.difference_weights@.len() && 0 <= j < m.difference_weights@[i]@.len() {
        assert(m.difference_weights@[i]@[j].equals(n.difference_weights@[i]@[j]));
    }
    if 0 <= i < m.context_weights@.len() && 0 <= j < m.context_weights@[i]@.len() {
        assert(m.context_weights@[i]@[j].equals(n.context_weights@[i]@[j]));
    }
}

proof fn lemma_same_leaf(
    a: Seq<EvalTreeNode>,
    b: Seq<EvalTreeNode>,
    features: Seq<Float32>,
    turned: bool,
    index: int,
)
    requires
        tree_alike(a, b),
        tree_wf(a),
        0 <= index < a.len(),
    ensures
        leaf_from(a, features, turned, index).units() == leaf_from(
            b,
            features,
            turned,
            index,
        ).units(),
    decreases a.len() - index,
{
    assert(node_wf(a[index], index, a.len() as int));
    assert(nodes_alike(a[index], b[index]));
    if let EvalTreeNode::Split { feature, threshold, yes, no } = a[index] {
        lemma_same_leaf(a, b, features, turned, yes as int);
        lemma_same_leaf(a, b, features, turned, no as int);
        if let EvalTreeNode::Split { feature: f, threshold: t, yes: y, no: n } = b[index] {
            let v = oriented(features[feature as int], turned);
            assert(v.below(threshold) == v.below(t));
        }
    }
}

proof fn lemma_same_sum(a: Seq<Float32>, b: Seq<Float32>, unit: real)
    requires
        a.len() == b.len(),
        forall|i: int| 0 <= i < a.len() ==> (#[trigger] a[i]).units() == b[i].units(),
    ensures
        exact_sum(a, unit) == exact_sum(b, unit),
    decreases a.len(),
{
    if a.len() > 0 {
        let c = a.drop_last();
        let d = b.drop_last();
        assert forall|i: int| 0 <= i < c.len() implies (#[trigger] c[i]).units() == d[i].units() by {
            assert(c[i] == a[i] && d[i] == b[i]);
        }
        lemma_same_sum(c, d, unit);
        assert(a[a.len() - 1].units() == b[b.len() - 1].units());
    }
}

proof fn lemma_same_dot(
    a: Seq<Float32>,
    b: Seq<Float32>,
    features: Seq<Float32>,
    unit: real,
    n: int,
)
    requires
        0 <= n <= a.len(),
        a.len() == b.len(),
        forall|i: int| 0 <= i < a.len() ==> (#[trigger] a[i]).units() == b[i].units(),
    ensures
        exact_dot(a, features, unit, n) == exact_dot(b, features, unit, n),
    decreases n,
{
    if n > 0 {
        lemma_same_dot(a, b, features, unit, n - 1);
        assert(a[n - 1].units() == b[n - 1].units());
    }
}

/// Tree models that are the same evaluate every position the same.
pub proof fn lemma_same_tree_models_evaluate_the_same(
    a: EvalTreeModel,
    b: EvalTreeModel,
    features: Seq<Float32>,
    unit: real,
)
    requires
        tree_models_alike(a, b),
        a.wf(),
    ensures
        tree_evaluation(a@, features, unit) == tree_evaluation(b@, features, unit),
{
    assert forall|turned: bool| #[trigger]
        exact_sum(leaves(a@.trees, features, turned), unit) == exact_sum(
            leaves(b@.trees, features, turned),
            unit,
        ) by {
        let l = leaves(a@.trees, features, turned);
        let m = leaves(b@.trees, features, turned);
        assert forall|i: int| 0 <= i < l.len() implies (#[trigger] l[i]).units() == m[i].units() by {
            assert(tree_alike(a.trees@[i]@, b.trees@[i]@));
            assert(tree_wf(a.trees@[i]@));
            lemma_same_leaf(a.trees@[i]@, b.trees@[i]@, features, turned, 0);
        }
        lemma_same_sum(l, m, unit);
    }
    assert forall|i: int| 0 <= i < 36 implies (#[trigger] a.base_weights@[i]).units()
        == b.base_weights@[i].units() by {
        assert(a.base_weights@[i].equals(b.base_weights@[i]));
    }
    lemma_same_dot(a.base_weights@, b.base_weights@, features, unit, 36);
    assert(correction(a@, features, unit) == correction(b@, features, unit));
    assert(exact(a.k, unit) == exact(b.k, unit));
}

} // verus!
