//! Serialization of binary trees back to Newick text.
//!
//! [`newick_chars`] is the specification of the text form: it is the exact
//! structural inverse of the parser's grammar, so parse/write round trips
//! can be stated and proved against it.

use crate::binary_tree::{TopDownCursor, TreeModel};
use vstd::prelude::*;

verus! {

/// The ASCII character of a decimal digit value.
pub open spec fn dec_digit_char(d: int) -> char {
    ((48 + d) as u32) as char
}

/// Decimal representation of a non-negative number, most significant digit
/// first, without leading zeros (a single `'0'` for zero).
pub open spec fn dec_digits(n: int) -> Seq<char>
    decreases n,
{
    if n < 10 {
        seq![dec_digit_char(n)]
    } else {
        dec_digits(n / 10).push(dec_digit_char(n % 10))
    }
}

/// Newick text of a tree, without the trailing semicolon: inner nodes emit
/// `(`, left subtree, `,`, right subtree, `)`; leaves emit their decimal
/// label. Node indices are not observable in the text form.
pub open spec fn newick_chars(t: TreeModel) -> Seq<char>
    decreases t,
{
    match t {
        TreeModel::Leaf { label } => dec_digits(label as int),
        TreeModel::Inner { left, right, .. } => seq!['('] + newick_chars(*left) + seq![',']
            + newick_chars(*right) + seq![')'],
    }
}

/// Complete Newick text of a tree: the tree followed by `';'`.
pub open spec fn newick_full(t: TreeModel) -> Seq<char> {
    newick_chars(t) + seq![';']
}

/// Relies on `String::push`: appends exactly one character to the string.
#[verifier::external_body]
pub(crate) fn push_char(s: &mut String, c: char)
    ensures
        final(s)@ == old(s)@.push(c),
{
    s.push(c);
}

/// Appends the decimal representation of `n`.
pub(crate) fn write_u32_digits(n: u32, out: &mut String)
    ensures
        final(out)@ == old(out)@ + dec_digits(n as int),
    decreases n,
{
    if n < 10 {
        let c = (48 + n as u8) as char;
        proof {
            assert(c == dec_digit_char(n as int));
        }
        push_char(out, c);
        proof {
            assert(final(out)@ =~= old(out)@ + dec_digits(n as int));
        }
    } else {
        write_u32_digits(n / 10, out);
        let c = (48 + (n % 10) as u8) as char;
        proof {
            assert(c == dec_digit_char(n as int % 10));
        }
        push_char(out, c);
        proof {
            assert(final(out)@ =~= old(out)@ + dec_digits(n as int));
        }
    }
}

/// Writer of the minimal Newick representation, available for anything that
/// offers a [`TopDownCursor`].
pub trait NewickWriter: TopDownCursor {
    /// Appends the minimal Newick representation of the tree, without any
    /// whitespace characters, followed by the trailing `';'`.
    fn write_newick(&self, out: &mut String)
        ensures
            final(out)@ == old(out)@ + newick_full(self.cursor_model()),
    {
        self.write_newick_inner(out);
        push_char(out, ';');
        proof {
            assert(final(out)@ =~= old(out)@ + newick_full(self.cursor_model()));
        }
    }

    /// Produces the Newick string of the tree by calling
    /// [`NewickWriter::write_newick`] on an empty buffer.
    fn to_newick_string(&self) -> (r: String)
        ensures
            r@ == newick_full(self.cursor_model()),
    {
        let mut buffer = String::new();
        self.write_newick(&mut buffer);
        proof {
            assert(buffer@ =~= newick_full(self.cursor_model()));
        }
        buffer
    }

    /// Same as [`NewickWriter::write_newick`], but omits the finishing
    /// semicolon.
    fn write_newick_inner(&self, out: &mut String)
        ensures
            final(out)@ == old(out)@ + newick_chars(self.cursor_model()),
    ;
}

} // verus!
