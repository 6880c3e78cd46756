//! Binary trees with labelled leaves, the builder interface used by the
//! Newick parser, and read-only traversal capabilities.

use vstd::prelude::*;

pub mod bin_tree;
pub mod depth_first_search;
pub mod indexed_bin_tree;

pub use bin_tree::{BinTree, BinTreeBuilder};
pub use depth_first_search::{DFSImpl, DepthFirstSearch};
pub use indexed_bin_tree::{IndexedBinTree, IndexedBinTreeBuilder};

verus! {

/// Identifier of an inner node, assigned by the parser in pre-order.
#[derive(Debug, Clone, Copy, PartialEq, Eq, Structural, PartialOrd, Ord, Hash)]
pub struct NodeIdx(pub u32);

impl NodeIdx {
    pub fn new(v: u32) -> (r: Self)
        ensures
            r.0 == v,
    {
        NodeIdx(v)
    }

    /// The next node index. The largest index has no successor.
    pub fn incremented(self) -> (r: Self)
        requires
            self.0 < u32::MAX,
        ensures
            r.0 == self.0 + 1,
    {
        NodeIdx(self.0 + 1)
    }
}

impl Default for NodeIdx {
    fn default() -> (r: Self)
        ensures
            r.0 == 0,
    {
        NodeIdx(0)
    }
}

/// Identifier carried by a leaf, taken verbatim from the input text.
#[derive(Debug, Clone, Copy, PartialEq, Eq, Structural, PartialOrd, Ord, Hash)]
pub struct Label(pub u32);

impl From<Label> for NodeIdx {
    fn from(value: Label) -> (r: Self)
        ensures
            r.0 == value.0,
    {
        NodeIdx(value.0)
    }
}

impl vstd::std_specs::convert::FromSpecImpl<Label> for NodeIdx {
    open spec fn obeys_from_spec() -> bool {
        true
    }

    open spec fn from_spec(t: Label) -> Self {
        NodeIdx(t.0)
    }
}

/// Mathematical model of a binary tree: a leaf carries its label, an inner
/// node carries an index and owns its two subtrees. Trees built by builders
/// that discard indices are modelled with every index equal to zero.
pub enum TreeModel {
    Leaf { label: u32 },
    Inner { idx: int, left: Box<TreeModel>, right: Box<TreeModel> },
}

/// Number of inner nodes of a tree.
pub open spec fn inner_count(t: TreeModel) -> nat
    decreases t,
{
    match t {
        TreeModel::Leaf { .. } => 0,
        TreeModel::Inner { left, right, .. } => 1 + inner_count(*left) + inner_count(*right),
    }
}

/// The same tree with every inner-node index replaced by zero; the shape a
/// builder that discards indices produces.
pub open spec fn erase_indices(t: TreeModel) -> TreeModel
    decreases t,
{
    match t {
        TreeModel::Leaf { label } => TreeModel::Leaf { label },
        TreeModel::Inner { idx, left, right } => TreeModel::Inner {
            idx: 0,
            left: Box::new(erase_indices(*left)),
            right: Box::new(erase_indices(*right)),
        },
    }
}

/// The same tree with inner-node indices assigned in pre-order starting at
/// `own`: a node takes `own` itself, its left subtree the indices right after
/// it, and its right subtree the indices after the left subtree.
pub open spec fn reindex(t: TreeModel, own: int) -> TreeModel
    decreases t,
{
    match t {
        TreeModel::Leaf { label } => TreeModel::Leaf { label },
        TreeModel::Inner { idx, left, right } => TreeModel::Inner {
            idx: own,
            left: Box::new(reindex(*left, own + 1)),
            right: Box::new(reindex(*right, own + 1 + inner_count(*left))),
        },
    }
}

/// Pre-order indexing invariant: the node itself carries `own`, the left
/// subtree carries the block starting at `own + 1`, and the right subtree the
/// block right after the left subtree's.
pub open spec fn well_indexed(t: TreeModel, own: int) -> bool
    decreases t,
{
    match t {
        TreeModel::Leaf { .. } => true,
        TreeModel::Inner { idx, left, right } => idx == own && well_indexed(*left, own + 1)
            && well_indexed(*right, own + 1 + inner_count(*left)),
    }
}

/// All inner-node indices of `t` lie in the half-open interval `[lo, hi)`.
pub open spec fn indices_between(t: TreeModel, lo: int, hi: int) -> bool
    decreases t,
{
    match t {
        TreeModel::Leaf { .. } => true,
        TreeModel::Inner { idx, left, right } => lo <= idx < hi && indices_between(*left, lo, hi)
            && indices_between(*right, lo, hi),
    }
}

/// The index a tree reports for its root node: an inner node's own index, or
/// a leaf's label read as an index.
pub open spec fn node_index_of(t: TreeModel) -> int {
    match t {
        TreeModel::Leaf { label } => label as int,
        TreeModel::Inner { idx, .. } => idx,
    }
}

/// A well-indexed tree keeps all its inner-node indices in the block
/// `[own, own + inner_count(t))`.
pub proof fn lemma_well_indexed_bounds(t: TreeModel, own: int)
    requires
        well_indexed(t, own),
    ensures
        indices_between(t, own, own + inner_count(t)),
    decreases t,
{
    match t {
        TreeModel::Leaf { .. } => {},
        TreeModel::Inner { idx, left, right } => {
            lemma_well_indexed_bounds(*left, own + 1);
            lemma_well_indexed_bounds(*right, own + 1 + inner_count(*left));
            lemma_indices_between_widen(*left, own + 1, own + 1 + inner_count(*left), own, own + inner_count(t));
            lemma_indices_between_widen(
                *right,
                own + 1 + inner_count(*left),
                own + 1 + inner_count(*left) + inner_count(*right),
                own,
                own + inner_count(t),
            );
        },
    }
}

/// Widening the interval preserves `indices_between`.
pub proof fn lemma_indices_between_widen(t: TreeModel, lo: int, hi: int, lo2: int, hi2: int)
    requires
        indices_between(t, lo, hi),
        lo2 <= lo,
        hi <= hi2,
    ensures
        indices_between(t, lo2, hi2),
    decreases t,
{
    match t {
        TreeModel::Leaf { .. } => {},
        TreeModel::Inner { idx, left, right } => {
            lemma_indices_between_widen(*left, lo, hi, lo2, hi2);
            lemma_indices_between_widen(*right, lo, hi, lo2, hi2);
        },
    }
}

/// Generic interface to build binary trees, required by the Newick parser.
///
/// An implementation decides what a node looks like in memory; the two spec
/// functions expose the mathematical tree a node stands for, and whether the
/// implementation records the node indices the parser assigns.
pub trait TreeBuilder: Sized {
    type Node;

    /// True iff nodes built by this builder record the indices they are
    /// given; a builder that discards them models every index as zero.
    spec fn keeps_index() -> bool;

    /// The mathematical tree a node stands for.
    spec fn node_model(node: &Self::Node) -> TreeModel;

    /// Creates a new inner node with the two children provided.
    fn new_inner(&mut self, id: NodeIdx, left: Self::Node, right: Self::Node) -> (n: Self::Node)
        ensures
            Self::node_model(&n) == (TreeModel::Inner {
                idx: if Self::keeps_index() {
                    id.0 as int
                } else {
                    0
                },
                left: Box::new(Self::node_model(&left)),
                right: Box::new(Self::node_model(&right)),
            }),
    ;

    /// Creates a new leaf node with the label provided.
    fn new_leaf(&mut self, label: Label) -> (n: Self::Node)
        ensures
            Self::node_model(&n) == (TreeModel::Leaf { label: label.0 }),
    ;

    /// Declares a node a root. Depending on the tree implementation this may
    /// be a no-op, or may trigger the computation of meta information; either
    /// way the tree the node stands for is unchanged.
    fn make_root(&mut self, root: Self::Node) -> (n: Self::Node)
        ensures
            Self::node_model(&n) == Self::node_model(&root),
    {
        root
    }
}

/// What a traversal sees at one node: either the two children, or the leaf
/// label.
pub enum NodeType<T> {
    Inner(T, T),
    Leaf(Label),
}

/// Minimal requirement for a binary tree implementation (e.g., used by the
/// Newick writer): a read-only cursor that can tell a leaf from an inner node
/// and descend to children.
pub trait TopDownCursor: Sized {
    /// The mathematical tree below this cursor.
    spec fn cursor_model(&self) -> TreeModel;

    /// Returns the children iff self is an inner node and `None` otherwise.
    fn children(&self) -> (r: Option<(Self, Self)>)
        ensures
            match r {
                Some(c) => self.cursor_model() matches TreeModel::Inner { left, right, .. }
                    && c.0.cursor_model() == *left && c.1.cursor_model() == *right,
                None => self.cursor_model() is Leaf,
            },
    ;

    /// Returns the label iff self is a leaf node and `None` otherwise.
    fn leaf_label(&self) -> (r: Option<Label>)
        ensures
            match r {
                Some(l) => self.cursor_model() == (TreeModel::Leaf { label: l.0 }),
                None => self.cursor_model() is Inner,
            },
    ;

    /// Returns the left child iff self is an inner node and `None` otherwise.
    fn left_child(&self) -> (r: Option<Self>)
        ensures
            match r {
                Some(l) => self.cursor_model() matches TreeModel::Inner { left, .. }
                    && l.cursor_model() == *left,
                None => self.cursor_model() is Leaf,
            },
    {
        match self.children() {
            Some((l, _)) => Some(l),
            None => None,
        }
    }

    /// Returns the right child iff self is an inner node and `None` otherwise.
    fn right_child(&self) -> (r: Option<Self>)
        ensures
            match r {
                Some(rc) => self.cursor_model() matches TreeModel::Inner { right, .. }
                    && rc.cursor_model() == *right,
                None => self.cursor_model() is Leaf,
            },
    {
        match self.children() {
            Some((_, rc)) => Some(rc),
            None => None,
        }
    }

    /// Returns true iff self is an inner node.
    fn is_inner(&self) -> (r: bool)
        ensures
            r == (self.cursor_model() is Inner),
    {
        !self.is_leaf()
    }

    /// Returns true iff self is a leaf.
    fn is_leaf(&self) -> (r: bool)
        ensures
            r == (self.cursor_model() is Leaf),
    {
        self.leaf_label().is_some()
    }

    /// For an inner node returns `NodeType::Inner`, for a leaf returns
    /// `NodeType::Leaf`.
    fn visit(&self) -> (r: NodeType<Self>)
        ensures
            match r {
                NodeType::Inner(l, rc) => self.cursor_model() matches TreeModel::Inner {
                    left,
                    right,
                    ..
                } && l.cursor_model() == *left && rc.cursor_model() == *right,
                NodeType::Leaf(l) => self.cursor_model() == (TreeModel::Leaf { label: l.0 }),
            },
    {
        match self.children() {
            Some((l, r)) => NodeType::Inner(l, r),
            None => {
                let label = self.leaf_label();
                NodeType::Leaf(label.unwrap())
            },
        }
    }
}

/// Tree with indexed inner nodes.
pub trait TreeWithNodeIdx {
    /// The mathematical tree this value stands for, indices included.
    spec fn indexed_model(&self) -> TreeModel;

    /// Returns the index of the node. If the node is a leaf, the leaf label
    /// is converted into a node index.
    fn node_idx(&self) -> (r: NodeIdx)
        ensures
            r.0 as int == node_index_of(self.indexed_model()),
    ;
}

} // verus!
