//! [`NewickWriter`] for every type that offers a [`TopDownCursor`].

use crate::binary_tree::{NodeType, TopDownCursor};
use crate::newick::writer::{newick_chars, push_char, write_u32_digits, NewickWriter};
use vstd::prelude::*;

verus! {

impl<B: TopDownCursor> NewickWriter for B {
    fn write_newick_inner(&self, out: &mut String)
        decreases self.cursor_model(),
    {
        match self.visit() {
            NodeType::Inner(left, right) => {
                push_char(out, '(');
                left.write_newick_inner(out);
                push_char(out, ',');
                right.write_newick_inner(out);
                push_char(out, ')');
                proof {
                    assert(final(out)@ =~= old(out)@ + newick_chars(self.cursor_model()));
                }
            },
            NodeType::Leaf(label) => {
                write_u32_digits(label.0, out);
            },
        }
    }
}

} // verus!
