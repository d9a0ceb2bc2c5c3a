//! Whether two evaluators are the same.

use crate::evaluate::config::EvalConfig;
use crate::evaluate::context::EvalContextModel;
use crate::evaluate::tree::{EvalTreeModel, EvalTreeNode};
use crate::float32::Float32;
use vstd::prelude::*;

verus! {

/// Whether two lists hold the same numbers.
pub open spec fn numbers_alike(a: Seq<Float32>, b: Seq<Float32>) -> bool {
    a.len() == b.len() && forall|i: int| 0 <= i < a.len() ==> (#[trigger] a[i]).equals(b[i])
}

/// Whether two tables hold the same numbers.
pub open spec fn tables_alike(a: Seq<Vec<Float32>>, b: Seq<Vec<Float32>>) -> bool {
    a.len() == b.len() && forall|i: int|
        0 <= i < a.len() ==> numbers_alike((#[trigger] a[i])@, b[i]@)
}

/// Whether two nodes split or end a tree alike.
pub open spec fn nodes_alike(a: EvalTreeNode, b: EvalTreeNode) -> bool {
    match (a, b) {
        (EvalTreeNode::Leaf(x), EvalTreeNode::Leaf(y)) => x.equals(y),
        (
            EvalTreeNode::Split { feature, threshold, yes, no },
            EvalTreeNode::Split { feature: f, threshold: t, yes: y, no: n },
        ) => feature == f && threshold.equals(t) && yes == y && no == n,
        _ => false,
    }
}

/// Whether two trees are the same.
pub open spec fn tree_alike(a: Seq<EvalTreeNode>, b: Seq<EvalTreeNode>) -> bool {
    a.len() == b.len() && forall|i: int| 0 <= i < a.len() ==> nodes_alike(#[trigger] a[i], b[i])
}

/// Whether two lists of trees are the same.
pub open spec fn trees_alike(a: Seq<Vec<EvalTreeNode>>, b: Seq<Vec<EvalTreeNode>>) -> bool {
    a.len() == b.len() && forall|i: int| 0 <= i < a.len() ==> tree_alike((#[trigger] a[i])@, b[i]@)
}

/// Whether two tree models are the same.
pub open spec fn tree_models_alike(a: EvalTreeModel, b: EvalTreeModel) -> bool {
    &&& numbers_alike(a.base_weights@, b.base_weights@)
    &&& a.k.equals(b.k)
    &&& a.correction_clip.equals(b.correction_clip)
    &&& trees_alike(a.trees@, b.trees@)
}

/// Whether two context models are the same.
pub open spec fn context_models_alike(a: EvalContextModel, b: EvalContextModel) -> bool {
    &&& numbers_alike(a.base_weights@, b.base_weights@)
    &&& a.k.equals(b.k)
    &&& a.correction_clip.equals(b.correction_clip)
    &&& numbers_alike(a.diff_scale@, b.diff_scale@)
    &&& numbers_alike(a.total_mean@, b.total_mean@)
    &&& numbers_alike(a.total_scale@, b.total_scale@)
    &&& tables_alike(a.difference_weights@, b.difference_weights@)
    &&& tables_alike(a.context_weights@, b.context_weights@)
    &&& numbers_alike(a.context_bias@, b.context_bias@)
    &&& numbers_alike(a.output_weights@, b.output_weights@)
}

fn same_numbers(a: &[Float32], b: &[Float32]) -> (r: bool)
    ensures
        r == numbers_alike(a@, b@),
{
    if a.len() != b.len() {
        return false;
    }
    let mut i: usize = 0;
    while i < a.len()
        invariant
            i <= a@.len(),
            a@.len() == b@.len(),
            forall|k: int| 0 <= k < i ==> (#[trigger] a@[k]).equals(b@[k]),
        decreases a@.len() - i,
    {
        if !a[i].is_equal(&b[i]) {
            assert(!a@[i as int].equals(b@[i as int]));
            return false;
        }
        i = i + 1;
    }
    true
}

fn same_weights(a: &[Float32; 36], b: &[Float32; 36]) -> (r: bool)
    ensures
        r == numbers_alike(a@, b@),
{
    let mut i: usize = 0;
    while i < 36
        invariant
            i <= 36,
            forall|k: int| 0 <= k < i ==> (#[trigger] a@[k]).equals(b@[k]),
        decreases 36 - i,
    {
        if !a[i].is_equal(&b[i]) {
            assert(!a@[i as int].equals(b@[i as int]));
            return false;
        }
        i = i + 1;
    }
    true
}

fn same_tables(a: &Vec<Vec<Float32>>, b: &Vec<Vec<Float32>>) -> (r: bool)
    ensures
        r == tables_alike(a@, b@),
{
    if a.len() != b.len() {
        return false;
    }
    let mut i: usize = 0;
    while i < a.len()
        invariant
            i <= a@.len(),
            a@.len() == b@.len(),
            forall|k: int| 0 <= k < i ==> numbers_alike((#[trigger] a@[k])@, b@[k]@),
        decreases a@.len() - i,
    {
        if !same_numbers(a[i].as_slice(), b[i].as_slice()) {
            assert(!numbers_alike(a@[i as int]@, b@[i as int]@));
            return false;
        }
        i = i + 1;
    }
    true
}

fn same_tree(a: &Vec<EvalTreeNode>, b: &Vec<EvalTreeNode>) -> (r: bool)
    ensures
        r == tree_alike(a@, b@),
{
    if a.len() != b.len() {
        return false;
    }
    let mut i: usize = 0;
    while i < a.len()
        invariant
            i <= a@.len(),
            a@.len() == b@.len(),
            forall|k: int| 0 <= k < i ==> nodes_alike(#[trigger] a@[k], b@[k]),
        decreases a@.len() - i,
    {
        let alike = match (a[i], b[i]) {
            (EvalTreeNode::Leaf(x), EvalTreeNode::Leaf(y)) => x.is_equal(&y),
            (
                EvalTreeNode::Split { feature, threshold, yes, no },
                EvalTreeNode::Split { feature: f, threshold: t, yes: y, no: n },
            ) => feature == f && threshold.is_equal(&t) && yes == y && no == n,
            _ => false,
        };
        if !alike {
            assert(!nodes_alike(a@[i as int], b@[i as int]));
            return false;
        }
        i = i + 1;
    }
    true
}

fn same_trees(a: &Vec<Vec<EvalTreeNode>>, b: &Vec<Vec<EvalTreeNode>>) -> (r: bool)
    ensures
        r == trees_alike(a@, b@),
{
    if a.len() != b.len() {
        return false;
    }
    let mut i: usize = 0;
    while i < a.len()
        invariant
            i <= a@.len(),
            a@.len() == b@.len(),
            forall|k: int| 0 <= k < i ==> tree_alike((#[trigger] a@[k])@, b@[k]@),
        decreases a@.len() - i,
    {
        if !same_tree(&a[i], &b[i]) {
            assert(!tree_alike(a@[i as int]@, b@[i as int]@));
            return false;
        }
        i = i + 1;
    }
    true
}

impl EvalConfig {
    /// Whether two evaluators have the same parameters.
    pub open spec fn alike(self, other: EvalConfig) -> bool {
        &&& numbers_alike(self.weights@, other.weights@)
        &&& self.mon_clamp == other.mon_clamp
        &&& self.bench_scale.equals(other.bench_scale)
        &&& match (self.tree_model, other.tree_model) {
            (None, None) => true,
            (Some(a), Some(b)) => tree_models_alike(a, b),
            _ => false,
        }
        &&& match (self.context_model, other.context_model) {
            (None, None) => true,
            (Some(a), Some(b)) => context_models_alike(a, b),
            _ => false,
        }
    }

    pub fn same_as(&self, other: &EvalConfig) -> (r: bool)
        ensures
            r == self.alike(*other),
    {
        let trees = match (&self.tree_model, &other.tree_model) {
            (None, None) => true,
            (Some(a), Some(b)) => same_weights(&a.base_weights, &b.base_weights) && a.k.is_equal(
                &b.k,
            ) && a.correction_clip.is_equal(&b.correction_clip) && same_trees(&a.trees, &b.trees),
            _ => false,
        };
        let contexts = match (&self.context_model, &other.context_model) {
            (None, None) => true,
            (Some(a), Some(b)) => same_weights(&a.base_weights, &b.base_weights) && a.k.is_equal(
                &b.k,
            ) && a.correction_clip.is_equal(&b.correction_clip) && same_numbers(
                a.diff_scale.as_slice(),
                b.diff_scale.as_slice(),
            ) && same_numbers(a.total_mean.as_slice(), b.total_mean.as_slice()) && same_numbers(
                a.total_scale.as_slice(),
                b.total_scale.as_slice(),
            ) && same_tables(&a.difference_weights, &b.difference_weights) && same_tables(
                &a.context_weights,
                &b.context_weights,
            ) && same_numbers(a.context_bias.as_slice(), b.context_bias.as_slice())
                && same_numbers(a.output_weights.as_slice(), b.output_weights.as_slice()),
            _ => false,
        };
        same_weights(&self.weights, &other.weights) && self.mon_clamp == other.mon_clamp
            && self.bench_scale.is_equal(&other.bench_scale) && trees && contexts
    }
}

} // verus!
