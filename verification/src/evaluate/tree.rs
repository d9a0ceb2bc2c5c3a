//! Boosted trees: a correction on top of the linear evaluator.

use crate::evaluate::model_text::{
    all_finite, base_lines, check_opening, finite_number, line_at, model_lines, model_lines_of, next_line,
    number_at, opening, parse_finite_f32, field_at, read_base_weights, read_field, read_number,
    told,
};
use crate::evaluate::schema::NUM_EVAL_FEATURES;
use crate::evaluate::weights::{reads_all, reads_as, NumberFn};
use crate::float32::Float32;
use crate::text::{
    append_decimal, contents, decimal, parse_unsigned, quote, quoted, same, string_of, unsigned,
    unsigned_error, words, words_of,
};
use vstd::prelude::*;
use vstd::string::StringExecFns;

verus! {

#[derive(Clone, Copy, Debug, PartialEq, Eq, Structural)]
pub enum EvalTreeNode {
    Split { feature: u8, threshold: Float32, yes: u16, no: u16 },
    Leaf(Float32),
}

/// A compact gradient-boosted correction on top of a linear evaluator.
/// Tree outputs are logits; evaluating both side orientations and taking
/// half their difference makes the score of a position with the sides
/// swapped the opposite of its score.
#[derive(Clone, Debug)]
pub struct EvalTreeModel {
    pub base_weights: [Float32; 36],
    pub k: Float32,
    pub correction_clip: Float32,
    pub trees: Vec<Vec<EvalTreeNode>>,
}

/// Whether every split leads further down its tree and looks at a feature,
/// and every number is finite.
pub open spec fn tree_wf(nodes: Seq<EvalTreeNode>) -> bool {
    &&& 0 < nodes.len() <= u16::MAX
    &&& forall|i: int| 0 <= i < nodes.len() ==> node_wf(#[trigger] nodes[i], i, nodes.len() as int)
}

pub open spec fn node_wf(node: EvalTreeNode, index: int, count: int) -> bool {
    match node {
        EvalTreeNode::Leaf(value) => value.finite(),
        EvalTreeNode::Split { feature, threshold, yes, no } => {
            &&& feature < NUM_EVAL_FEATURES
            &&& threshold.finite()
            &&& index < yes < count
            &&& index < no < count
        },
    }
}

/// The nodes of the trees, one by one.
pub open spec fn nodes_of(trees: Seq<Vec<EvalTreeNode>>) -> Seq<Seq<EvalTreeNode>> {
    Seq::new(trees.len(), |i: int| trees[i]@)
}

/// What a model holds.
#[verifier::ext_equal]
pub struct TreeModelView {
    pub base_weights: Seq<Float32>,
    pub k: Float32,
    pub correction_clip: Float32,
    pub trees: Seq<Seq<EvalTreeNode>>,
}

impl View for EvalTreeModel {
    type V = TreeModelView;

    open spec fn view(&self) -> TreeModelView {
        TreeModelView {
            base_weights: self.base_weights@,
            k: self.k,
            correction_clip: self.correction_clip,
            trees: nodes_of(self.trees@),
        }
    }
}

/// A feature, or its opposite.
pub open spec fn oriented(feature: Float32, turned: bool) -> Float32 {
    if turned {
        feature.opposite()
    } else {
        feature
    }
}

/// The leaf reached from the node at `index`: a split goes to `yes` where
/// the feature is below its threshold, to `no` elsewhere.
pub open spec fn leaf_from(
    nodes: Seq<EvalTreeNode>,
    features: Seq<Float32>,
    turned: bool,
    index: int,
) -> Float32
    decreases nodes.len() - index,
{
    match nodes[index] {
        EvalTreeNode::Leaf(value) => value,
        EvalTreeNode::Split { feature, threshold, yes, no } => {
            let child: int = if oriented(features[feature as int], turned).below(threshold) {
                yes as int
            } else {
                no as int
            };
            if index < child < nodes.len() {
                leaf_from(nodes, features, turned, child)
            } else {
                threshold
            }
        },
    }
}

/// The leaf of each tree.
pub open spec fn leaves(
    trees: Seq<Seq<EvalTreeNode>>,
    features: Seq<Float32>,
    turned: bool,
) -> Seq<Float32> {
    Seq::new(trees.len(), |i: int| leaf_from(trees[i], features, turned, 0))
}

impl EvalTreeModel {
    /// Every tree can be walked, every number is finite and the scales are
    /// positive.
    pub open spec fn wf(self) -> bool {
        &&& all_finite(self.base_weights@)
        &&& forall|i: int| 0 <= i < self.trees@.len() ==> tree_wf((#[trigger] self.trees@[i])@)
        &&& self.k.finite() && self.k.units() > 0
        &&& self.correction_clip.finite() && self.correction_clip.units() > 0
    }

    /// The leaves that the features, or their opposites where `turned`, lead
    /// to, in the order of the trees. Their sum is the output of the trees.
    pub fn tree_leaves(&self, features: &[Float32; 36], turned: bool) -> (r: Vec<Float32>)
        requires
            self.wf(),
        ensures
            r@ == leaves(self@.trees, features@, turned),
    {
        let mut r: Vec<Float32> = Vec::new();
        let mut t: usize = 0;
        while t < self.trees.len()
            invariant
                t <= self.trees.len(),
                self.wf(),
                r@ == leaves(self@.trees, features@, turned).take(t as int),
            decreases self.trees.len() - t,
        {
            let tree = &self.trees[t];
            assert(tree_wf(self.trees@[t as int]@));
            let mut index: usize = 0;
            let mut found: Option<Float32> = None;
            while found.is_none()
                invariant
                    index < tree@.len(),
                    tree_wf(tree@),
                    leaf_from(tree@, features@, turned, 0) == (match found {
                        Some(x) => x,
                        None => leaf_from(tree@, features@, turned, index as int),
                    }),
                decreases
                    tree@.len() - index + if found is None {
                        1int
                    } else {
                        0int
                    },
            {
                assert(node_wf(tree@[index as int], index as int, tree@.len() as int));
                match tree[index] {
                    EvalTreeNode::Leaf(value) => {
                        found = Some(value);
                    },
                    EvalTreeNode::Split { feature, threshold, yes, no } => {
                        let value = if turned {
                            features[feature as usize].negated()
                        } else {
                            features[feature as usize]
                        };
                        index = if value.is_below(&threshold) {
                            yes as usize
                        } else {
                            no as usize
                        };
                    },
                }
            }
            if let Some(x) = found {
                r.push(x);
            }
            t = t + 1;
            assert(r@ =~= leaves(self@.trees, features@, turned).take(t as int));
        }
        assert(r@ =~= leaves(self@.trees, features@, turned));
        r
    }
}

/// Every feature with its sign turned.
pub open spec fn opposites(features: Seq<Float32>) -> Seq<Float32> {
    Seq::new(features.len(), |i: int| features[i].opposite())
}

/// Side symmetry: turning the sign of every feature, as swapping the sides
/// does, exchanges the leaves of the two orientations. Half their difference
/// therefore turns its sign.
pub proof fn lemma_orientations_exchange(trees: Seq<Seq<EvalTreeNode>>, features: Seq<Float32>)
    requires
        features.len() == NUM_EVAL_FEATURES,
        forall|i: int| 0 <= i < trees.len() ==> tree_wf(#[trigger] trees[i]),
    ensures
        leaves(trees, opposites(features), false) == leaves(trees, features, true),
        leaves(trees, opposites(features), true) == leaves(trees, features, false),
{
    assert forall|i: int| 0 <= i < trees.len() implies leaf_from(
        trees[i],
        opposites(features),
        false,
        0,
    ) == leaf_from(trees[i], features, true, 0) && leaf_from(trees[i], opposites(features), true, 0)
        == leaf_from(trees[i], features, false, 0) by {
        lemma_leaf_exchange(trees[i], features, 0);
    }
    assert(leaves(trees, opposites(features), false) =~= leaves(trees, features, true));
    assert(leaves(trees, opposites(features), true) =~= leaves(trees, features, false));
}

proof fn lemma_leaf_exchange(nodes: Seq<EvalTreeNode>, features: Seq<Float32>, index: int)
    requires
        features.len() == NUM_EVAL_FEATURES,
        tree_wf(nodes),
        0 <= index < nodes.len(),
    ensures
        leaf_from(nodes, opposites(features), false, index) == leaf_from(
            nodes,
            features,
            true,
            index,
        ),
        leaf_from(nodes, opposites(features), true, index) == leaf_from(
            nodes,
            features,
            false,
            index,
        ),
    decreases nodes.len() - index,
{
    assert(node_wf(nodes[index], index, nodes.len() as int));
    if let EvalTreeNode::Split { feature, threshold, yes, no } = nodes[index] {
        lemma_leaf_exchange(nodes, features, yes as int);
        lemma_leaf_exchange(nodes, features, no as int);
        crate::float32::lemma_opposites_turn_the_order(features[feature as int], threshold);
    }
}

/// An unsigned number, or `complaint` with the reason behind it.
pub open spec fn unsigned_or(text: Seq<char>, complaint: Seq<char>) -> Result<nat, Seq<char>> {
    match unsigned(text) {
        Some(n) => Ok(n),
        None => Err(complaint + unsigned_error(text, usize::MAX as nat)),
    }
}

pub fn read_unsigned(text: &str, complaint: &str) -> (r: Result<usize, String>)
    ensures
        told(r, |n: usize| n as nat, unsigned_or(text@, complaint@)),
{
    match parse_unsigned(text) {
        Ok(n) => Ok(n),
        Err(e) => {
            let mut message = String::new();
            message.append(complaint);
            message.append(e.as_str());
            assert(message@ =~= complaint@ + unsigned_error(text@, usize::MAX as nat));
            Err(message)
        },
    }
}

/// What a line of leaf or split words says.
pub open spec fn node_of_words(
    tokens: Seq<Seq<char>>,
    tree: int,
    index: int,
    count: int,
    num: NumberFn,
) -> Result<EvalTreeNode, Seq<char>> {
    if tokens.len() == 0 {
        Err("unknown tree node token None"@)
    } else if tokens[0] == "leaf"@ {
        if tokens.len() == 1 {
            Err("missing leaf value"@)
        } else if tokens.len() > 2 {
            Err("trailing leaf tokens"@)
        } else {
            match finite_number(tokens[1], "leaf"@, num) {
                Err(e) => Err(e),
                Ok(x) => Ok(EvalTreeNode::Leaf(x)),
            }
        }
    } else if tokens[0] == "split"@ {
        split_of_words(tokens, tree, index, count, num)
    } else {
        Err("unknown tree node token Some("@ + quoted(tokens[0]) + ")"@)
    }
}

/// What the words of a split say: its feature, its threshold and the two
/// nodes it leads to, which stand further down.
pub open spec fn split_of_words(
    tokens: Seq<Seq<char>>,
    tree: int,
    index: int,
    count: int,
    num: NumberFn,
) -> Result<EvalTreeNode, Seq<char>> {
    if tokens.len() == 1 {
        Err("missing split feature"@)
    } else {
        match unsigned_or(tokens[1], "bad split feature: "@) {
            Err(e) => Err(e),
            Ok(feature) => if tokens.len() == 2 {
                Err("missing split threshold"@)
            } else {
                match finite_number(tokens[2], "split threshold"@, num) {
                    Err(e) => Err(e),
                    Ok(threshold) => match children_of_words(tokens) {
                        Err(e) => Err(e),
                        Ok((yes, no)) => if feature >= NUM_EVAL_FEATURES {
                            Err("split feature "@ + decimal(feature) + " out of range"@)
                        } else if yes <= index || no <= index || yes >= count || no >= count {
                            Err(
                                "tree "@ + decimal(tree as nat) + " node "@ + decimal(index as nat)
                                    + " has invalid children"@,
                            )
                        } else {
                            Ok(
                                EvalTreeNode::Split {
                                    feature: feature as u8,
                                    threshold,
                                    yes: yes as u16,
                                    no: no as u16,
                                },
                            )
                        },
                    },
                }
            },
        }
    }
}

/// The two nodes that a split names.
pub open spec fn children_of_words(tokens: Seq<Seq<char>>) -> Result<(nat, nat), Seq<char>> {
    if tokens.len() == 3 {
        Err("missing yes child"@)
    } else {
        match unsigned_or(tokens[3], "bad yes child: "@) {
            Err(e) => Err(e),
            Ok(yes) => if tokens.len() == 4 {
                Err("missing no child"@)
            } else {
                match unsigned_or(tokens[4], "bad no child: "@) {
                    Err(e) => Err(e),
                    Ok(no) => if tokens.len() > 5 {
                        Err("trailing split tokens"@)
                    } else {
                        Ok((yes, no))
                    },
                }
            },
        }
    }
}

fn read_children(tokens: &Vec<Vec<char>>) -> (r: Result<(usize, usize), String>)
    requires
        tokens@.len() >= 3,
    ensures
        told(r, |p: (usize, usize)| (p.0 as nat, p.1 as nat), children_of_words(contents(tokens@))),
{
    if tokens.len() == 3 {
        return Err("missing yes child".to_owned());
    }
    assert(contents(tokens@)[3] == tokens@[3]@);
    let yes: usize = match read_unsigned(string_of(&tokens[3]).as_str(), "bad yes child: ") {
        Err(e) => {
            return Err(e);
        },
        Ok(n) => n,
    };
    if tokens.len() == 4 {
        return Err("missing no child".to_owned());
    }
    assert(contents(tokens@)[4] == tokens@[4]@);
    let no: usize = match read_unsigned(string_of(&tokens[4]).as_str(), "bad no child: ") {
        Err(e) => {
            return Err(e);
        },
        Ok(n) => n,
    };
    if tokens.len() > 5 {
        return Err("trailing split tokens".to_owned());
    }
    Ok((yes, no))
}

fn read_split<P: Fn(&str) -> Result<Float32, String>>(
    tokens: &Vec<Vec<char>>,
    tree: usize,
    index: usize,
    count: usize,
    read: &P,
) -> (r: Result<EvalTreeNode, String>)
    requires
        reads_all(*read),
        tokens@.len() >= 1,
        count <= u16::MAX,
    ensures
        forall|num: NumberFn|
            reads_as(*read, num) ==> told(
                r,
                |n: EvalTreeNode| n,
                #[trigger] split_of_words(
                    contents(tokens@),
                    tree as int,
                    index as int,
                    count as int,
                    num,
                ),
            ),
        r matches Ok(node) ==> node_wf(node, index as int, count as int),
{
    if tokens.len() == 1 {
        return Err("missing split feature".to_owned());
    }
    assert(contents(tokens@)[1] == tokens@[1]@);
    let feature: usize = match read_unsigned(
        string_of(&tokens[1]).as_str(),
        "bad split feature: ",
    ) {
        Err(e) => {
            return Err(e);
        },
        Ok(n) => n,
    };
    if tokens.len() == 2 {
        return Err("missing split threshold".to_owned());
    }
    assert(contents(tokens@)[2] == tokens@[2]@);
    let threshold = match parse_finite_f32(
        string_of(&tokens[2]).as_str(),
        "split threshold",
        read,
    ) {
        Err(e) => {
            return Err(e);
        },
        Ok(x) => x,
    };
    let (yes, no) = match read_children(tokens) {
        Err(e) => {
            return Err(e);
        },
        Ok(p) => p,
    };
    if feature >= NUM_EVAL_FEATURES {
        let mut message = String::new();
        message.append("split feature ");
        append_decimal(&mut message, feature as u64);
        message.append(" out of range");
        return Err(message);
    }
    if yes <= index || no <= index || yes >= count || no >= count {
        let mut message = String::new();
        message.append("tree ");
        append_decimal(&mut message, tree as u64);
        message.append(" node ");
        append_decimal(&mut message, index as u64);
        message.append(" has invalid children");
        return Err(message);
    }
    Ok(EvalTreeNode::Split { feature: feature as u8, threshold, yes: yes as u16, no: no as u16 })
}

/// What the node line at `cursor` says.
pub open spec fn node_at(
    all: Seq<Seq<char>>,
    cursor: int,
    tree: int,
    index: int,
    count: int,
    num: NumberFn,
) -> Result<EvalTreeNode, Seq<char>> {
    match line_at(all, cursor, "tree model"@) {
        Err(e) => Err(e),
        Ok(line) => node_of_words(words(line), tree, index, count, num),
    }
}

fn read_node<P: Fn(&str) -> Result<Float32, String>>(
    all: &Vec<Vec<char>>,
    cursor: usize,
    tree: usize,
    index: usize,
    count: usize,
    read: &P,
) -> (r: Result<EvalTreeNode, String>)
    requires
        reads_all(*read),
        count <= u16::MAX,
    ensures
        forall|num: NumberFn|
            reads_as(*read, num) ==> told(
                r,
                |n: EvalTreeNode| n,
                #[trigger] node_at(
                    contents(all@),
                    cursor as int,
                    tree as int,
                    index as int,
                    count as int,
                    num,
                ),
            ),
        r matches Ok(node) ==> node_wf(node, index as int, count as int),
        r is Ok ==> cursor < all@.len(),
{
    let at: usize = match next_line(all, cursor, "tree model") {
        Err(e) => {
            return Err(e);
        },
        Ok(at) => at,
    };
    let tokens = words_of(&all[at]);
    assert(contents(tokens@) == words(all@[at as int]@));
    if tokens.len() == 0 {
        return Err("unknown tree node token None".to_owned());
    }
    assert(contents(tokens@)[0] == tokens@[0]@);
    if same(&tokens[0], "leaf") {
        if tokens.len() == 1 {
            return Err("missing leaf value".to_owned());
        }
        if tokens.len() > 2 {
            return Err("trailing leaf tokens".to_owned());
        }
        assert(contents(tokens@)[1] == tokens@[1]@);
        match parse_finite_f32(string_of(&tokens[1]).as_str(), "leaf", read) {
            Err(e) => Err(e),
            Ok(x) => Ok(EvalTreeNode::Leaf(x)),
        }
    } else if same(&tokens[0], "split") {
        read_split(&tokens, tree, index, count, read)
    } else {
        let mut message = String::new();
        message.append("unknown tree node token Some(");
        message.append(quote(string_of(&tokens[0]).as_str()).as_str());
        message.append(")");
        Err(message)
    }
}

/// The first `n` nodes of a tree of `count` nodes that starts at `start`.
pub open spec fn nodes_at(
    all: Seq<Seq<char>>,
    start: int,
    tree: int,
    n: int,
    count: int,
    num: NumberFn,
) -> Result<Seq<EvalTreeNode>, Seq<char>>
    decreases n,
{
    if n <= 0 {
        Ok(Seq::empty())
    } else {
        match nodes_at(all, start, tree, n - 1, count, num) {
            Err(e) => Err(e),
            Ok(nodes) => match node_at(all, start + n - 1, tree, n - 1, count, num) {
                Err(e) => Err(e),
                Ok(node) => Ok(nodes.push(node)),
            },
        }
    }
}

proof fn lemma_node_errors_stay(
    all: Seq<Seq<char>>,
    start: int,
    tree: int,
    n: int,
    m: int,
    count: int,
    num: NumberFn,
)
    requires
        0 <= n <= m,
        nodes_at(all, start, tree, n, count, num) is Err,
    ensures
        nodes_at(all, start, tree, m, count, num) == nodes_at(all, start, tree, n, count, num),
    decreases m - n,
{
    if n < m {
        lemma_node_errors_stay(all, start, tree, n, m - 1, count, num);
    }
}

fn read_nodes<P: Fn(&str) -> Result<Float32, String>>(
    all: &Vec<Vec<char>>,
    start: usize,
    tree: usize,
    count: usize,
    read: &P,
) -> (r: Result<Vec<EvalTreeNode>, String>)
    requires
        reads_all(*read),
        start <= all@.len(),
        0 < count <= u16::MAX,
    ensures
        forall|num: NumberFn|
            reads_as(*read, num) ==> told(
                r,
                |v: Vec<EvalTreeNode>| v@,
                #[trigger] nodes_at(
                    contents(all@),
                    start as int,
                    tree as int,
                    count as int,
                    count as int,
                    num,
                ),
            ),
        r matches Ok(nodes) ==> tree_wf(nodes@) && nodes@.len() == count && start + count
            <= all@.len(),
{
    let mut nodes: Vec<EvalTreeNode> = Vec::new();
    let mut i: usize = 0;
    while i < count
        invariant
            i <= count <= u16::MAX,
            start + i <= all.len(),
            reads_all(*read),
            nodes@.len() == i,
            forall|k: int| 0 <= k < i ==> node_wf(#[trigger] nodes@[k], k, count as int),
            forall|num: NumberFn|
                reads_as(*read, num) ==> #[trigger] nodes_at(
                    contents(all@),
                    start as int,
                    tree as int,
                    i as int,
                    count as int,
                    num,
                ) == Ok::<Seq<EvalTreeNode>, Seq<char>>(nodes@),
        decreases count - i,
    {
        let ghost before = nodes@;
        match read_node(all, start + i, tree, i, count, read) {
            Err(e) => {
                assert forall|num: NumberFn| reads_as(*read, num) implies #[trigger] nodes_at(
                    contents(all@),
                    start as int,
                    tree as int,
                    count as int,
                    count as int,
                    num,
                ) == Err::<Seq<EvalTreeNode>, Seq<char>>(e@) by {
                    assert(nodes_at(
                        contents(all@),
                        start as int,
                        tree as int,
                        i as int,
                        count as int,
                        num,
                    ) is Ok);
                    assert(node_at(
                        contents(all@),
                        start + i,
                        tree as int,
                        i as int,
                        count as int,
                        num,
                    ) is Err);
                    lemma_node_errors_stay(
                        contents(all@),
                        start as int,
                        tree as int,
                        i + 1,
                        count as int,
                        count as int,
                        num,
                    );
                }
                return Err(e);
            },
            Ok(node) => {
                nodes.push(node);
                assert forall|num: NumberFn| reads_as(*read, num) implies #[trigger] nodes_at(
                    contents(all@),
                    start as int,
                    tree as int,
                    i + 1,
                    count as int,
                    num,
                ) == Ok::<Seq<EvalTreeNode>, Seq<char>>(nodes@) by {
                    assert(nodes_at(
                        contents(all@),
                        start as int,
                        tree as int,
                        i as int,
                        count as int,
                        num,
                    ) == Ok::<Seq<EvalTreeNode>, Seq<char>>(before));
                    assert(node_at(
                        contents(all@),
                        start + i,
                        tree as int,
                        i as int,
                        count as int,
                        num,
                    ) is Ok);
                }
            },
        }
        i = i + 1;
    }
    Ok(nodes)
}

/// The trees read so far, and where the next one starts.
#[verifier::ext_equal]
pub struct TreesSoFar {
    pub trees: Seq<Seq<EvalTreeNode>>,
    pub cursor: int,
}

/// The tree at `cursor`: its node count, then its nodes.
pub open spec fn tree_at(all: Seq<Seq<char>>, cursor: int, tree: int, num: NumberFn) -> Result<
    Seq<EvalTreeNode>,
    Seq<char>,
> {
    let name = decimal(tree as nat);
    match field_at(all, cursor, "tree model"@, "tree "@, "missing tree "@ + name + " header"@) {
        Err(e) => Err(e),
        Ok(text) => match unsigned_or(text, "bad tree "@ + name + " node count: "@) {
            Err(e) => Err(e),
            Ok(count) => if count == 0 || count > u16::MAX {
                Err("tree "@ + name + " has invalid node count "@ + decimal(count))
            } else {
                nodes_at(all, cursor + 1, tree, count as int, count as int, num)
            },
        },
    }
}

/// The first `n` trees, the first of them at `start`.
pub open spec fn trees_at(all: Seq<Seq<char>>, start: int, n: int, num: NumberFn) -> Result<
    TreesSoFar,
    Seq<char>,
>
    decreases n,
{
    if n <= 0 {
        Ok(TreesSoFar { trees: Seq::empty(), cursor: start })
    } else {
        match trees_at(all, start, n - 1, num) {
            Err(e) => Err(e),
            Ok(so_far) => match tree_at(all, so_far.cursor, n - 1, num) {
                Err(e) => Err(e),
                Ok(nodes) => Ok(
                    TreesSoFar {
                        trees: so_far.trees.push(nodes),
                        cursor: so_far.cursor + 1 + nodes.len(),
                    },
                ),
            },
        }
    }
}

proof fn lemma_tree_errors_stay(all: Seq<Seq<char>>, start: int, n: int, m: int, num: NumberFn)
    requires
        0 <= n <= m,
        trees_at(all, start, n, num) is Err,
    ensures
        trees_at(all, start, m, num) == trees_at(all, start, n, num),
    decreases m - n,
{
    if n < m {
        lemma_tree_errors_stay(all, start, n, m - 1, num);
    }
}

fn read_tree<P: Fn(&str) -> Result<Float32, String>>(
    all: &Vec<Vec<char>>,
    cursor: usize,
    tree: usize,
    read: &P,
) -> (r: Result<Vec<EvalTreeNode>, String>)
    requires
        reads_all(*read),
    ensures
        forall|num: NumberFn|
            reads_as(*read, num) ==> told(
                r,
                |v: Vec<EvalTreeNode>| v@,
                #[trigger] tree_at(contents(all@), cursor as int, tree as int, num),
            ),
        r matches Ok(nodes) ==> tree_wf(nodes@) && cursor + 1 + nodes@.len() <= all@.len(),
{
    let mut complaint = String::new();
    complaint.append("missing tree ");
    append_decimal(&mut complaint, tree as u64);
    complaint.append(" header");
    let text = match read_field(all, cursor, "tree model", "tree ", complaint.as_str()) {
        Err(e) => {
            return Err(e);
        },
        Ok(s) => s,
    };
    let mut complaint = String::new();
    complaint.append("bad tree ");
    append_decimal(&mut complaint, tree as u64);
    complaint.append(" node count: ");
    let count: usize = match read_unsigned(text.as_str(), complaint.as_str()) {
        Err(e) => {
            return Err(e);
        },
        Ok(n) => n,
    };
    if count == 0 || count > u16::MAX as usize {
        let mut message = String::new();
        message.append("tree ");
        append_decimal(&mut message, tree as u64);
        message.append(" has invalid node count ");
        append_decimal(&mut message, count as u64);
        return Err(message);
    }
    assert(cursor < all.len());
    read_nodes(all, cursor + 1, tree, count, read)
}

fn read_trees<P: Fn(&str) -> Result<Float32, String>>(
    all: &Vec<Vec<char>>,
    start: usize,
    count: usize,
    read: &P,
) -> (r: Result<(Vec<Vec<EvalTreeNode>>, usize), String>)
    requires
        reads_all(*read),
        start <= all@.len(),
    ensures
        forall|num: NumberFn|
            reads_as(*read, num) ==> told(
                r,
                |p: (Vec<Vec<EvalTreeNode>>, usize)| TreesSoFar {
                    trees: nodes_of(p.0@),
                    cursor: p.1 as int,
                },
                #[trigger] trees_at(contents(all@), start as int, count as int, num),
            ),
        r matches Ok(p) ==> forall|i: int| 0 <= i < p.0@.len() ==> tree_wf((#[trigger] p.0@[i])@),
{
    let mut trees: Vec<Vec<EvalTreeNode>> = Vec::new();
    let mut cursor: usize = start;
    let mut i: usize = 0;
    assert(nodes_of(trees@) =~= Seq::<Seq<EvalTreeNode>>::empty());
    while i < count
        invariant
            i <= count,
            cursor <= all@.len(),
            reads_all(*read),
            forall|k: int| 0 <= k < trees@.len() ==> tree_wf((#[trigger] trees@[k])@),
            forall|num: NumberFn|
                reads_as(*read, num) ==> #[trigger] trees_at(
                    contents(all@),
                    start as int,
                    i as int,
                    num,
                ) == Ok::<TreesSoFar, Seq<char>>(
                    TreesSoFar { trees: nodes_of(trees@), cursor: cursor as int },
                ),
        decreases count - i,
    {
        let ghost before = trees@;
        match read_tree(all, cursor, i, read) {
            Err(e) => {
                assert forall|num: NumberFn| reads_as(*read, num) implies #[trigger] trees_at(
                    contents(all@),
                    start as int,
                    count as int,
                    num,
                ) == Err::<TreesSoFar, Seq<char>>(e@) by {
                    assert(trees_at(contents(all@), start as int, i as int, num) is Ok);
                    assert(tree_at(contents(all@), cursor as int, i as int, num) is Err);
                    lemma_tree_errors_stay(
                        contents(all@),
                        start as int,
                        i + 1,
                        count as int,
                        num,
                    );
                }
                return Err(e);
            },
            Ok(nodes) => {
                let length: usize = nodes.len();
                let ghost content = nodes@;
                trees.push(nodes);
                assert(nodes_of(trees@) =~= nodes_of(before).push(content));
                assert(cursor + 1 + length <= all.len());
                assert forall|num: NumberFn| reads_as(*read, num) implies #[trigger] trees_at(
                    contents(all@),
                    start as int,
                    i + 1,
                    num,
                ) == Ok::<TreesSoFar, Seq<char>>(
                    TreesSoFar { trees: nodes_of(trees@), cursor: cursor + 1 + length },
                ) by {
                    assert(trees_at(contents(all@), start as int, i as int, num) is Ok);
                    assert(tree_at(contents(all@), cursor as int, i as int, num) is Ok);
                }
                cursor = cursor + 1 + length;
            },
        }
        i = i + 1;
    }
    Ok((trees, cursor))
}

/// The first line of a tree model file.
pub open spec fn tree_model_tag() -> Seq<char> {
    "poke-engine-tree-eval-v1"@
}

/// The two scales of a tree model.
pub open spec fn tree_scales(all: Seq<Seq<char>>, num: NumberFn) -> Result<
    (Float32, Float32),
    Seq<char>,
> {
    match opening(all, tree_model_tag(), "tree model"@) {
        Err(e) => Err(e),
        Ok(_) => match number_at(all, 2, "tree model"@, "k"@, num) {
            Err(e) => Err(e),
            Ok(k) => if k.units() <= 0 {
                Err("k must be positive"@)
            } else {
                match number_at(all, 3, "tree model"@, "correction_clip"@, num) {
                    Err(e) => Err(e),
                    Ok(clip) => if clip.units() <= 0 {
                        Err("correction_clip must be positive"@)
                    } else {
                        Ok((k, clip))
                    },
                }
            },
        },
    }
}

/// The trees of a tree model, which end the file.
pub open spec fn tree_section(all: Seq<Seq<char>>, num: NumberFn) -> Result<
    Seq<Seq<EvalTreeNode>>,
    Seq<char>,
> {
    match field_at(all, 40, "tree model"@, "trees "@, "missing trees count"@) {
        Err(e) => Err(e),
        Ok(text) => match unsigned_or(text, "bad trees count: "@) {
            Err(e) => Err(e),
            Ok(count) => match trees_at(all, 41, count as int, num) {
                Err(e) => Err(e),
                Ok(so_far) => if so_far.cursor != all.len() {
                    Err("trailing tree model content"@)
                } else {
                    Ok(so_far.trees)
                },
            },
        },
    }
}

/// The model that a file holds, or what is wrong with it first: the format
/// and feature order, the two scales, the base weights, the trees.
pub open spec fn tree_model_of(text: Seq<char>, num: NumberFn) -> Result<TreeModelView, Seq<char>> {
    let all = model_lines(text);
    match tree_scales(all, num) {
        Err(e) => Err(e),
        Ok((k, correction_clip)) => match base_lines(all, 4, 36, "tree model"@, num) {
            Err(e) => Err(e),
            Ok(base) => match tree_section(all, num) {
                Err(e) => Err(e),
                Ok(trees) => Ok(
                    TreeModelView { base_weights: base.weights, k, correction_clip, trees },
                ),
            },
        },
    }
}

fn read_tree_scales<P: Fn(&str) -> Result<Float32, String>>(all: &Vec<Vec<char>>, read: &P) -> (r:
    Result<(Float32, Float32), String>)
    requires
        reads_all(*read),
    ensures
        forall|num: NumberFn|
            reads_as(*read, num) ==> told(
                r,
                |p: (Float32, Float32)| p,
                #[trigger] tree_scales(contents(all@), num),
            ),
        r matches Ok(p) ==> p.0.finite() && p.0.units() > 0 && p.1.finite() && p.1.units() > 0
            && all@.len() >= 4,
{
    if let Err(e) = check_opening(all, "poke-engine-tree-eval-v1", "tree model") {
        return Err(e);
    }
    let k = match read_number(all, 2, "tree model", "k", read) {
        Err(e) => {
            return Err(e);
        },
        Ok(x) => x,
    };
    if !k.is_positive() {
        return Err("k must be positive".to_owned());
    }
    let clip = match read_number(all, 3, "tree model", "correction_clip", read) {
        Err(e) => {
            return Err(e);
        },
        Ok(x) => x,
    };
    if !clip.is_positive() {
        return Err("correction_clip must be positive".to_owned());
    }
    Ok((k, clip))
}

fn read_tree_section<P: Fn(&str) -> Result<Float32, String>>(all: &Vec<Vec<char>>, read: &P) -> (r:
    Result<Vec<Vec<EvalTreeNode>>, String>)
    requires
        reads_all(*read),
    ensures
        forall|num: NumberFn|
            reads_as(*read, num) ==> told(
                r,
                |v: Vec<Vec<EvalTreeNode>>| nodes_of(v@),
                #[trigger] tree_section(contents(all@), num),
            ),
        r matches Ok(v) ==> forall|i: int| 0 <= i < v@.len() ==> tree_wf((#[trigger] v@[i])@),
{
    let text = match read_field(all, 40, "tree model", "trees ", "missing trees count") {
        Err(e) => {
            return Err(e);
        },
        Ok(s) => s,
    };
    let count: usize = match read_unsigned(text.as_str(), "bad trees count: ") {
        Err(e) => {
            return Err(e);
        },
        Ok(n) => n,
    };
    match read_trees(all, 41, count, read) {
        Err(e) => Err(e),
        Ok((trees, cursor)) => if cursor != all.len() {
            Err("trailing tree model content".to_owned())
        } else {
            Ok(trees)
        },
    }
}

/// Parse the text format of a tree model. `read` reads one number.
pub fn parse_eval_tree_model<P: Fn(&str) -> Result<Float32, String>>(text: &str, read: &P) -> (r:
    Result<EvalTreeModel, String>)
    requires
        reads_all(*read),
    ensures
        forall|num: NumberFn|
            reads_as(*read, num) ==> told(
                r,
                |m: EvalTreeModel| m@,
                #[trigger] tree_model_of(text@, num),
            ),
        r matches Ok(model) ==> model.wf(),
{
    let all = model_lines_of(text);
    let (k, correction_clip) = match read_tree_scales(&all, read) {
        Err(e) => {
            return Err(e);
        },
        Ok(p) => p,
    };
    let base_weights = match read_base_weights(&all, 4, "tree model", read) {
        Err(e) => {
            return Err(e);
        },
        Ok(w) => w,
    };
    match read_tree_section(&all, read) {
        Err(e) => Err(e),
        Ok(trees) => Ok(EvalTreeModel { base_weights, k, correction_clip, trees }),
    }
}

} // verus!
