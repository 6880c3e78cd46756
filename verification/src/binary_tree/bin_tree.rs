//! Minimalistic implementation of a binary tree without any meta information.

use crate::binary_tree::{Label, NodeIdx, TopDownCursor, TreeBuilder, TreeModel};
use vstd::prelude::*;

verus! {

/// Minimalistic implementation of a binary tree without any meta information.
#[derive(Debug, PartialEq, Eq, PartialOrd, Ord, Hash)]
pub enum BinTree {
    Node(Box<BinTree>, Box<BinTree>),
    Leaf(Label),
}

impl Clone for BinTree {
    fn clone(&self) -> (res: Self)
        ensures
            res == *self,
        decreases *self,
    {
        match self {
            BinTree::Leaf(l) => BinTree::Leaf(*l),
            BinTree::Node(left, right) => BinTree::Node(
                Box::new((**left).clone()),
                Box::new((**right).clone()),
            ),
        }
    }
}

impl BinTree {
    /// The mathematical tree this value stands for; inner-node indices are
    /// not recorded, so they are modelled as zero.
    pub open spec fn model(&self) -> TreeModel
        decreases self,
    {
        match self {
            BinTree::Leaf(l) => TreeModel::Leaf { label: l.0 },
            BinTree::Node(l, r) => TreeModel::Inner {
                idx: 0,
                left: Box::new(l.model()),
                right: Box::new(r.model()),
            },
        }
    }

    pub fn top_down(&self) -> (r: &Self)
        ensures
            r == self,
    {
        self
    }
}

impl TopDownCursor for &BinTree {
    open spec fn cursor_model(&self) -> TreeModel {
        (*self).model()
    }

    fn children(&self) -> (r: Option<(Self, Self)>) {
        match self {
            BinTree::Node(l, r) => Some((l, r)),
            BinTree::Leaf(_) => None,
        }
    }

    fn leaf_label(&self) -> (r: Option<Label>) {
        match self {
            BinTree::Leaf(l) => Some(*l),
            BinTree::Node(..) => None,
        }
    }
}

/// Builder for [`BinTree`]: discards the node indices the parser assigns.
#[derive(Debug, Default)]
pub struct BinTreeBuilder();

impl TreeBuilder for BinTreeBuilder {
    type Node = BinTree;

    open spec fn keeps_index() -> bool {
        false
    }

    open spec fn node_model(node: &BinTree) -> TreeModel {
        node.model()
    }

    fn new_inner(&mut self, _id: NodeIdx, left: BinTree, right: BinTree) -> (n: BinTree) {
        BinTree::Node(Box::new(left), Box::new(right))
    }

    fn new_leaf(&mut self, label: Label) -> (n: BinTree) {
        BinTree::Leaf(label)
    }
}

} // verus!
