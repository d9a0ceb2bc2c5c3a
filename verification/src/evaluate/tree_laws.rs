//! What a tree model evaluates to, in exact arithmetic, and its symmetry.

use crate::evaluate::schema::NUM_EVAL_FEATURES;
use crate::evaluate::tree::{
    leaf_from, leaves, lemma_orientations_exchange, node_wf, opposites, oriented, tree_wf,
    EvalTreeNode, TreeModelView,
};
use crate::float32::Float32;
use vstd::prelude::*;

verus! {

/// A number in exact arithmetic, where `unit` is the smallest positive one.
pub open spec fn exact(x: Float32, unit: real) -> real {
    x.units() as real * unit
}

/// The sum of some numbers.
pub open spec fn exact_sum(values: Seq<Float32>, unit: real) -> real
    decreases values.len(),
{
    if values.len() == 0 {
        0 as real
    } else {
        exact_sum(values.drop_last(), unit) + exact(values.last(), unit)
    }
}

/// The weighted sum of the first `n` features.
pub open spec fn exact_dot(
    weights: Seq<Float32>,
    features: Seq<Float32>,
    unit: real,
    n: int,
) -> real
    decreases n,
{
    if n <= 0 {
        0 as real
    } else {
        exact_dot(weights, features, unit, n - 1) + exact(weights[n - 1], unit) * exact(
            features[n - 1],
            unit,
        )
    }
}

/// A number, or the nearest that is no further from zero than `limit`.
pub open spec fn clipped(x: real, limit: real) -> real {
    if x < -limit {
        -limit
    } else if x > limit {
        limit
    } else {
        x
    }
}

/// The correction of the trees: half the difference of what they make of the
/// features and of their opposites, clipped.
pub open spec fn correction(model: TreeModelView, features: Seq<Float32>, unit: real) -> real {
    clipped(
        (exact_sum(leaves(model.trees, features, false), unit) - exact_sum(
            leaves(model.trees, features, true),
            unit,
        )) / 2 as real,
        exact(model.correction_clip, unit),
    )
}

/// The evaluation of a feature vector by a tree model.
pub open spec fn tree_evaluation(
    model: TreeModelView,
    features: Seq<Float32>,
    unit: real,
) -> real {
    exact_dot(model.base_weights, features, unit, NUM_EVAL_FEATURES as int) + exact(
        model.k,
        unit,
    ) * correction(model, features, unit)
}

proof fn lemma_opposite_number(x: Float32, unit: real)
    ensures
        exact(x.opposite(), unit) == -exact(x, unit),
{
    assert(x.opposite().units() == -x.units());
    let n = x.units() as real;
    assert((-n) * unit == -(n * unit)) by (nonlinear_arith);
}

proof fn lemma_opposite_dot(weights: Seq<Float32>, features: Seq<Float32>, unit: real, n: int)
    requires
        0 <= n <= features.len(),
    ensures
        exact_dot(weights, opposites(features), unit, n) == -exact_dot(weights, features, unit, n),
    decreases n,
{
    if n > 0 {
        lemma_opposite_dot(weights, features, unit, n - 1);
        lemma_opposite_number(features[n - 1], unit);
        let w = exact(weights[n - 1], unit);
        let x = exact(features[n - 1], unit);
        assert(w * (-x) == -(w * x)) by (nonlinear_arith);
    }
}

/// A tree model is fair to both sides: the evaluation of a position with the
/// sides swapped, whose features are the opposites, is the opposite of the
/// evaluation of the position.
pub proof fn lemma_tree_model_is_side_symmetric(
    model: TreeModelView,
    features: Seq<Float32>,
    unit: real,
)
    requires
        features.len() == NUM_EVAL_FEATURES,
        forall|i: int| 0 <= i < model.trees.len() ==> tree_wf(#[trigger] model.trees[i]),
        model.correction_clip.units() >= 0,
        unit >= 0 as real,
    ensures
        tree_evaluation(model, opposites(features), unit) == -tree_evaluation(
            model,
            features,
            unit,
        ),
{
    lemma_opposite_dot(model.base_weights, features, unit, NUM_EVAL_FEATURES as int);
    lemma_orientations_exchange(model.trees, features);
    let up = exact_sum(leaves(model.trees, features, false), unit);
    let down = exact_sum(leaves(model.trees, features, true), unit);
    let limit = exact(model.correction_clip, unit);
    let c = model.correction_clip.units() as real;
    assert(c * unit >= 0 as real) by (nonlinear_arith)
        requires
            c >= 0 as real,
            unit >= 0 as real,
    ;
    assert((down - up) / 2 as real == -((up - down) / 2 as real));
    let x = correction(model, features, unit);
    assert(correction(model, opposites(features), unit) == -x);
    let k = exact(model.k, unit);
    assert(k * (-x) == -(k * x)) by (nonlinear_arith);
}

/// The trees correct the linear evaluation by no more than the scale times
/// the clip, up or down.
pub proof fn lemma_tree_correction_is_bounded(
    model: TreeModelView,
    features: Seq<Float32>,
    unit: real,
)
    requires
        model.k.units() >= 0,
        model.correction_clip.units() >= 0,
        unit >= 0 as real,
    ensures
        ({
            let base = exact_dot(
                model.base_weights,
                features,
                unit,
                NUM_EVAL_FEATURES as int,
            );
            let most = exact(model.k, unit) * exact(model.correction_clip, unit);
            base - most <= tree_evaluation(model, features, unit) <= base + most
        }),
{
    let c = model.correction_clip.units() as real;
    let n = model.k.units() as real;
    assert(c * unit >= 0 as real && n * unit >= 0 as real) by (nonlinear_arith)
        requires
            c >= 0 as real,
            n >= 0 as real,
            unit >= 0 as real,
    ;
    let k = exact(model.k, unit);
    let limit = exact(model.correction_clip, unit);
    let x = correction(model, features, unit);
    assert(-limit <= x <= limit);
    assert(-(k * limit) <= k * x <= k * limit) by (nonlinear_arith)
        requires
            k >= 0 as real,
            -limit <= x <= limit,
    ;
}

/// Whether a feature, or its opposite where `turned`, is less than a number.
pub open spec fn is_less(feature: Float32, turned: bool, number: Float32) -> bool {
    !feature.nan() && !number.nan() && if turned {
        -feature.units() < number.units()
    } else {
        feature.units() < number.units()
    }
}

/// Whether these are the nodes that a tree is walked through: from the root,
/// at each split to its `yes` node just if the feature that it looks at is
/// less than its own threshold and to its `no` node else, to a leaf.
pub open spec fn is_walk(
    nodes: Seq<EvalTreeNode>,
    features: Seq<Float32>,
    turned: bool,
    walk: Seq<int>,
) -> bool {
    &&& walk.len() > 0
    &&& walk[0] == 0
    &&& nodes[walk.last()] is Leaf
    &&& forall|k: int|
        0 <= k < walk.len() - 1 ==> (nodes[#[trigger] walk[k]] matches EvalTreeNode::Split {
            feature,
            threshold,
            yes,
            no,
        } && walk[k + 1] == if is_less(features[feature as int], turned, threshold) {
            yes as int
        } else {
            no as int
        })
}

proof fn lemma_is_less(feature: Float32, turned: bool, number: Float32)
    ensures
        oriented(feature, turned).below(number) == is_less(feature, turned, number),
{
    assert(feature.opposite().units() == -feature.units());
    assert(feature.opposite().nan() == feature.nan());
}

proof fn lemma_rest_of_walk(
    nodes: Seq<EvalTreeNode>,
    features: Seq<Float32>,
    turned: bool,
    walk: Seq<int>,
    k: int,
)
    requires
        tree_wf(nodes),
        is_walk(nodes, features, turned, walk),
        0 <= k < walk.len(),
        0 <= walk[k] < nodes.len(),
    ensures
        EvalTreeNode::Leaf(leaf_from(nodes, features, turned, walk[k])) == nodes[walk.last()],
    decreases walk.len() - k,
{
    assert(node_wf(nodes[walk[k]], walk[k], nodes.len() as int));
    match nodes[walk[k]] {
        EvalTreeNode::Split { feature, threshold, yes, no } => {
            assert(k < walk.len() - 1);
            lemma_is_less(features[feature as int], turned, threshold);
            lemma_rest_of_walk(nodes, features, turned, walk, k + 1);
            assert(leaf_from(nodes, features, turned, walk[k]) == leaf_from(
                nodes,
                features,
                turned,
                walk[k + 1],
            ));
        },
        EvalTreeNode::Leaf(value) => {
            assert(k == walk.len() - 1);
            assert(leaf_from(nodes, features, turned, walk[k]) == value);
        },
    }
}

proof fn lemma_some_walk(
    nodes: Seq<EvalTreeNode>,
    features: Seq<Float32>,
    turned: bool,
    index: int,
) -> (walk: Seq<int>)
    requires
        tree_wf(nodes),
        0 <= index < nodes.len(),
    ensures
        walk.len() > 0,
        walk[0] == index,
        nodes[walk.last()] is Leaf,
        forall|k: int|
            0 <= k < walk.len() - 1 ==> (nodes[#[trigger] walk[k]] matches EvalTreeNode::Split {
                feature,
                threshold,
                yes,
                no,
            } && walk[k + 1] == if is_less(features[feature as int], turned, threshold) {
                yes as int
            } else {
                no as int
            }),
    decreases nodes.len() - index,
{
    assert(node_wf(nodes[index], index, nodes.len() as int));
    match nodes[index] {
        EvalTreeNode::Leaf(_) => seq![index],
        EvalTreeNode::Split { feature, threshold, yes, no } => {
            let child = if is_less(features[feature as int], turned, threshold) {
                yes as int
            } else {
                no as int
            };
            let rest = lemma_some_walk(nodes, features, turned, child);
            let walk = seq![index] + rest;
            assert(walk.last() == rest.last());
            assert forall|k: int| 0 <= k < walk.len() - 1 implies (
            nodes[#[trigger] walk[k]] matches EvalTreeNode::Split { feature, threshold, yes, no }
                && walk[k + 1] == if is_less(features[feature as int], turned, threshold) {
                yes as int
            } else {
                no as int
            }) by {
                if k > 0 {
                    assert(walk[k] == rest[k - 1]);
                    assert(walk[k + 1] == rest[k]);
                }
            }
            walk
        },
    }
}

/// The leaf of a tree is where the walk through it ends: every step goes to
/// `yes` just if the feature that the split looks at, turned or not, is less
/// as a number than the threshold of that very split. There is such a walk
/// through every tree.
pub proof fn lemma_leaf_is_where_the_walk_ends(
    trees: Seq<Seq<EvalTreeNode>>,
    features: Seq<Float32>,
    turned: bool,
    i: int,
)
    requires
        0 <= i < trees.len(),
        tree_wf(trees[i]),
    ensures
        leaves(trees, features, turned).len() == trees.len(),
        forall|walk: Seq<int>| #[trigger]
            is_walk(trees[i], features, turned, walk) ==> trees[i][walk.last()]
                == EvalTreeNode::Leaf(leaves(trees, features, turned)[i]),
        exists|walk: Seq<int>| is_walk(trees[i], features, turned, walk),
{
    let nodes = trees[i];
    assert forall|walk: Seq<int>| #[trigger]
        is_walk(nodes, features, turned, walk) implies nodes[walk.last()] == EvalTreeNode::Leaf(
        leaves(trees, features, turned)[i],
    ) by {
        lemma_rest_of_walk(nodes, features, turned, walk, 0);
    }
    let walk = lemma_some_walk(nodes, features, turned, 0);
    assert(is_walk(nodes, features, turned, walk));
}

/// A tree of one split: its leaf is that of `yes` where the feature is less
/// than the threshold, and that of `no` where it is at least that.
pub proof fn lemma_tree_of_one_split(
    trees: Seq<Seq<EvalTreeNode>>,
    features: Seq<Float32>,
    turned: bool,
    i: int,
    feature: u8,
    threshold: Float32,
    yes: Float32,
    no: Float32,
)
    requires
        0 <= i < trees.len(),
        trees[i] == seq![
            EvalTreeNode::Split { feature, threshold, yes: 1, no: 2 },
            EvalTreeNode::Leaf(yes),
            EvalTreeNode::Leaf(no),
        ],
        !features[feature as int].nan(),
        !threshold.nan(),
    ensures
        ({
            let value = if turned {
                -features[feature as int].units()
            } else {
                features[feature as int].units()
            };
            &&& value < threshold.units() ==> leaves(trees, features, turned)[i] == yes
            &&& value >= threshold.units() ==> leaves(trees, features, turned)[i] == no
        }),
{
    lemma_is_less(features[feature as int], turned, threshold);
    reveal_with_fuel(leaf_from, 3);
    assert(trees[i][0] == EvalTreeNode::Split { feature, threshold, yes: 1, no: 2 });
    assert(trees[i][1] == EvalTreeNode::Leaf(yes));
    assert(trees[i][2] == EvalTreeNode::Leaf(no));
}

} // verus!
