//! Depth-first (pre-order) traversal over any type offering a
//! [`TopDownCursor`].

use crate::binary_tree::{TopDownCursor, TreeModel};
use vstd::prelude::*;

verus! {

/// Entry point of the traversal: `c.dfs()` yields `c` and then all nodes
/// below it, children left before right, each parent before its subtrees.
pub trait DepthFirstSearch: TopDownCursor {
    fn dfs(self) -> (d: DFSImpl<Self>)
        ensures
            d.models() =~= seq![self.cursor_model()],
    ;
}

/// Explicit-stack cursor over the remaining traversal.
pub struct DFSImpl<C> {
    stack: Vec<C>,
}

impl<C: TopDownCursor> DepthFirstSearch for C {
    fn dfs(self) -> (d: DFSImpl<C>) {
        let d = DFSImpl { stack: vec![self] };
        proof {
            assert(d.models() =~= seq![self.cursor_model()]);
        }
        d
    }
}

impl<C: TopDownCursor> DFSImpl<C> {
    /// The trees whose traversal is still pending, bottom of the stack first.
    pub closed spec fn models(&self) -> Seq<TreeModel> {
        self.stack@.map_values(|c: C| c.cursor_model())
    }

    /// Pops the next node in pre-order: the topmost pending tree is yielded
    /// and replaced on the stack by its children (right below left), so its
    /// left subtree is traversed before its right one.
    pub fn next(&mut self) -> (r: Option<C>)
        ensures
            old(self).models().len() == 0 ==> r is None && final(self).models() == old(
                self,
            ).models(),
            old(self).models().len() > 0 ==> {
                let top = old(self).models().last();
                &&& r matches Some(c) && c.cursor_model() == top
                &&& final(self).models() =~= old(self).models().drop_last() + (match top {
                    TreeModel::Inner { left, right, .. } => seq![*right, *left],
                    TreeModel::Leaf { .. } => Seq::<TreeModel>::empty(),
                })
            },
    {
        let item = match self.stack.pop() {
            Some(i) => i,
            None => {
                return None;
            },
        };
        if let Some((left, right)) = item.children() {
            self.stack.push(right);
            self.stack.push(left);
        }
        Some(item)
    }
}

} // verus!
