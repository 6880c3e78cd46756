//! Binary tree whose inner nodes remember the index assigned during parsing.

use crate::binary_tree::{
    node_index_of, Label, NodeIdx, TopDownCursor, TreeBuilder, TreeModel, TreeWithNodeIdx,
};
use vstd::prelude::*;

verus! {

/// Binary tree whose inner nodes carry the [`NodeIdx`] they were built with.
#[derive(Debug, PartialEq, Eq, PartialOrd, Ord, Hash)]
pub enum IndexedBinTree {
    Node(NodeIdx, Box<IndexedBinTree>, Box<IndexedBinTree>),
    Leaf(Label),
}

impl Clone for IndexedBinTree {
    fn clone(&self) -> (res: Self)
        ensures
            res == *self,
        decreases *self,
    {
        match self {
            IndexedBinTree::Leaf(l) => IndexedBinTree::Leaf(*l),
            IndexedBinTree::Node(idx, left, right) => IndexedBinTree::Node(
                *idx,
                Box::new((**left).clone()),
                Box::new((**right).clone()),
            ),
        }
    }
}

impl IndexedBinTree {
    /// The mathematical tree this value stands for, indices included.
    pub open spec fn model(&self) -> TreeModel
        decreases self,
    {
        match self {
            IndexedBinTree::Leaf(l) => TreeModel::Leaf { label: l.0 },
            IndexedBinTree::Node(idx, l, r) => TreeModel::Inner {
                idx: idx.0 as int,
                left: Box::new(l.model()),
                right: Box::new(r.model()),
            },
        }
    }

    pub fn top_down(&self) -> (r: &Self)
        ensures
            r == self,
    {
        self
    }
}

impl TopDownCursor for &IndexedBinTree {
    open spec fn cursor_model(&self) -> TreeModel {
        (*self).model()
    }

    fn children(&self) -> (r: Option<(Self, Self)>) {
        match self {
            IndexedBinTree::Node(_, l, r) => Some((l, r)),
            IndexedBinTree::Leaf(_) => None,
        }
    }

    fn leaf_label(&self) -> (r: Option<Label>) {
        match self {
            IndexedBinTree::Leaf(l) => Some(*l),
            IndexedBinTree::Node(..) => None,
        }
    }
}

impl TreeWithNodeIdx for IndexedBinTree {
    open spec fn indexed_model(&self) -> TreeModel {
        self.model()
    }

    fn node_idx(&self) -> (r: NodeIdx) {
        match self {
            IndexedBinTree::Node(idx, _, _) => *idx,
            IndexedBinTree::Leaf(label) => NodeIdx(label.0),
        }
    }
}

/// Builder for [`IndexedBinTree`]: keeps the node indices the parser assigns.
#[derive(Debug, Default)]
pub struct IndexedBinTreeBuilder();

impl TreeBuilder for IndexedBinTreeBuilder {
    type Node = IndexedBinTree;

    open spec fn keeps_index() -> bool {
        true
    }

    open spec fn node_model(node: &IndexedBinTree) -> TreeModel {
        node.model()
    }

    fn new_inner(&mut self, idx: NodeIdx, left: IndexedBinTree, right: IndexedBinTree) -> (n:
        IndexedBinTree) {
        IndexedBinTree::Node(idx, Box::new(left), Box::new(right))
    }

    fn new_leaf(&mut self, label: Label) -> (n: IndexedBinTree) {
        IndexedBinTree::Leaf(label)
    }
}

} // verus!
