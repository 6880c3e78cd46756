//! Round-trip laws relating the Newick parser and writer, and the pre-order
//! node-indexing invariant of parsed trees.

use crate::binary_tree::{
    erase_indices, indices_between, inner_count, lemma_well_indexed_bounds, reindex, well_indexed,
    TreeModel,
};
use crate::newick::binary_tree_parser::{
    lemma_parse_node_bounds, lemma_parse_node_fuel, spec_parse, spec_parse_newick, spec_parse_node,
    ParseOutcome, ParserError,
};
use crate::newick::lexer::{
    digit_run_end, digit_value, digits_value, is_digit_char, spec_lex_step, wrap32, LexStep,
    TokenType,
};
use crate::newick::writer::{dec_digit_char, dec_digits, newick_chars, newick_full};
use vstd::arithmetic::div_mod::{lemma_fundamental_div_mod, lemma_small_mod};
use vstd::prelude::*;

verus! {

/// The decimal representation of `n` is a non-empty digit string whose value
/// is `n` again.
proof fn lemma_dec_digits_props(n: int)
    requires
        0 <= n,
    ensures
        dec_digits(n).len() >= 1,
        forall|j: int| 0 <= j < dec_digits(n).len() ==> is_digit_char(#[trigger] dec_digits(n)[j]),
        digits_value(dec_digits(n)) == n,
    decreases n,
{
    if n < 10 {
        assert(dec_digits(n) == seq![dec_digit_char(n)]);
        assert(is_digit_char(dec_digit_char(n)));
        assert(digits_value(dec_digits(n)) == digits_value(
            dec_digits(n).drop_last(),
        ) * 10 + digit_value(dec_digits(n).last()));
        assert(dec_digits(n).drop_last() =~= Seq::<char>::empty());
        assert(digit_value(dec_digit_char(n)) == n);
    } else {
        lemma_fundamental_div_mod(n, 10);
        lemma_dec_digits_props(n / 10);
        let prefix = dec_digits(n / 10);
        let whole = dec_digits(n);
        assert(whole == prefix.push(dec_digit_char(n % 10)));
        assert(whole.drop_last() =~= prefix);
        assert(whole.last() == dec_digit_char(n % 10));
        assert(digit_value(dec_digit_char(n % 10)) == n % 10);
        assert(forall|j: int| 0 <= j < whole.len() ==> is_digit_char(#[trigger] whole[j])) by {
            assert(forall|j: int|
                0 <= j < prefix.len() ==> whole[j] == #[trigger] prefix[j]);
        }
    }
}

/// A run of digits that is followed by a non-digit (or the end of the
/// string) is exactly the maximal digit run.
proof fn lemma_digit_run_exact(s: Seq<char>, i: int, e: int)
    requires
        0 <= i <= e <= s.len(),
        forall|j: int| i <= j < e ==> is_digit_char(#[trigger] s[j]),
        e == s.len() || !is_digit_char(s[e]),
    ensures
        digit_run_end(s, i) == e,
    decreases e - i,
{
    if i < e {
        lemma_digit_run_exact(s, i + 1, e);
    }
}

/// Re-indexing changes no tree structure: the number of inner nodes, the
/// erased shape and the Newick text all stay the same.
pub proof fn lemma_reindex_shape(t: TreeModel, own: int)
    ensures
        inner_count(reindex(t, own)) == inner_count(t),
        erase_indices(reindex(t, own)) == erase_indices(t),
        newick_chars(reindex(t, own)) == newick_chars(t),
    decreases t,
{
    match t {
        TreeModel::Leaf { .. } => {},
        TreeModel::Inner { idx, left, right } => {
            lemma_reindex_shape(*left, own + 1);
            lemma_reindex_shape(*right, own + 1 + inner_count(*left));
        },
    }
}

/// Parsing the written text of `t`, embedded in `s` at `pos` and followed by
/// a non-digit character, succeeds, consumes exactly that text, and yields
/// `t` re-indexed in pre-order starting at `own_id`.
proof fn lemma_parse_written_node(t: TreeModel, s: Seq<char>, pos: int, ws: bool, own_id: int, fuel: nat)
    requires
        0 <= pos,
        pos + newick_chars(t).len() < s.len(),
        s.subrange(pos, pos + newick_chars(t).len()) == newick_chars(t),
        !is_digit_char(s[pos + newick_chars(t).len()]),
        fuel > s.len() - pos,
    ensures
        spec_parse_node(s, pos, ws, own_id, fuel) == (ParseOutcome::Done {
            tree: reindex(t, own_id),
            next_id: own_id + inner_count(t),
            pos: pos + newick_chars(t).len(),
        }),
    decreases t,
{
    match t {
        TreeModel::Leaf { label } => {
            let digits = dec_digits(label as int);
            let e = pos + digits.len();
            lemma_dec_digits_props(label as int);
            assert forall|j: int| pos <= j < e implies is_digit_char(#[trigger] s[j]) by {
                assert(s[j] == s.subrange(pos, e)[j - pos]);
            }
            lemma_digit_run_exact(s, pos, e);
            assert(is_digit_char(s[pos]));
            assert(s.subrange(pos, e) =~= digits);
            assert(digits_value(s.subrange(pos, e)) == label as int);
            lemma_small_mod(label as nat, 0x1_0000_0000nat);
            assert(wrap32(digits_value(s.subrange(pos, e))) == label as int);
            assert(spec_lex_step(s, pos, ws) == (LexStep::Tok {
                kind: TokenType::Number(label),
                offset: pos,
                next: e,
            }));
            assert(reindex(t, own_id) == t);
        },
        TreeModel::Inner { idx, left, right } => {
            let lchars = newick_chars(*left);
            let rchars = newick_chars(*right);
            let tchars = newick_chars(t);
            assert(tchars == seq!['('] + lchars + seq![','] + rchars + seq![')']);
            // positions of the pieces inside s
            let lstart = pos + 1;
            let lend = lstart + lchars.len();
            let rstart = lend + 1;
            let rend = rstart + rchars.len();
            assert(s[pos] == tchars[0]);
            assert(tchars[0] == '(');
            assert(!is_digit_char('('));
            assert(spec_lex_step(s, pos, ws) == (LexStep::Tok {
                kind: TokenType::ParOpen,
                offset: pos,
                next: pos + 1,
            }));
            assert forall|j: int| 0 <= j < tchars.len() implies s[pos + j] == #[trigger] tchars[j] by {
                assert(s[pos + j] == s.subrange(pos, pos + tchars.len())[j]);
            }
            // the left subtree's text sits at [lstart, lend), followed by ','
            assert forall|j: int|
                0 <= j < lchars.len() implies s.subrange(lstart, lend)[j] == #[trigger] lchars[j] by {
                assert(s[lstart + j] == tchars[1 + j]);
                assert(tchars[1 + j] == lchars[j]);
            }
            assert(s.subrange(lstart, lend) =~= lchars);
            assert(s[lend] == tchars[1 + lchars.len() as int]);
            assert(tchars[1 + lchars.len() as int] == ',');
            assert(!is_digit_char(','));
            lemma_parse_written_node(*left, s, lstart, ws, own_id + 1, (fuel - 1) as nat);
            lemma_reindex_shape(*left, own_id + 1);
            assert(spec_lex_step(s, lend, ws) == (LexStep::Tok {
                kind: TokenType::Comma,
                offset: lend,
                next: lend + 1,
            }));
            // the right subtree's text sits at [rstart, rend), followed by ')'
            assert forall|j: int|
                0 <= j < rchars.len() implies s.subrange(rstart, rend)[j] == #[trigger] rchars[j] by {
                assert(s[rstart + j] == tchars[2 + lchars.len() + j]);
                assert(tchars[2 + lchars.len() + j] == rchars[j]);
            }
            assert(s.subrange(rstart, rend) =~= rchars);
            assert(s[rend] == tchars[tchars.len() - 1]);
            assert(tchars[tchars.len() - 1] == ')');
            assert(!is_digit_char(')'));
            let lid = own_id + 1 + inner_count(*left);
            lemma_parse_written_node(*right, s, rstart, ws, lid, (fuel - 1) as nat);
            lemma_reindex_shape(*right, lid);
            assert(spec_lex_step(s, rend, ws) == (LexStep::Tok {
                kind: TokenType::ParClose,
                offset: rend,
                next: rend + 1,
            }));
            assert(reindex(t, own_id) == (TreeModel::Inner {
                idx: own_id,
                left: Box::new(reindex(*left, own_id + 1)),
                right: Box::new(reindex(*right, lid)),
            }));
            assert(rend + 1 == pos + tchars.len());
        },
    }
}

/// Idempotence of write-then-parse: parsing the writer's output for any tree
/// `t`, with or without whitespace skipping and for any starting index,
/// succeeds and yields exactly `t` re-indexed in pre-order from `root_id`;
/// in particular the tree is unchanged once indices are erased.
pub proof fn lemma_write_then_parse(t: TreeModel, ws: bool, root_id: int)
    ensures
        spec_parse_newick(newick_full(t), 0, ws, root_id) == Ok::<TreeModel, ParserError>(
            reindex(t, root_id),
        ),
        erase_indices(reindex(t, root_id)) == erase_indices(t),
    decreases t,
{
    let s = newick_full(t);
    let chars = newick_chars(t);
    assert(s == chars + seq![';']);
    assert(s.subrange(0, chars.len() as int) =~= chars);
    assert(s[chars.len() as int] == ';');
    assert(!is_digit_char(';'));
    let fuel = (s.len() + 1) as nat;
    lemma_parse_written_node(t, s, 0, ws, root_id, fuel);
    lemma_parse_node_fuel(s, 0, ws, root_id, fuel, (s.len() - 0 + 1) as nat);
    assert(spec_parse(s, 0, ws, root_id) == (ParseOutcome::Done {
        tree: reindex(t, root_id),
        next_id: root_id + inner_count(t),
        pos: chars.len() as int,
    }));
    assert(spec_lex_step(s, chars.len() as int, ws) == (LexStep::Tok {
        kind: TokenType::Semicolon,
        offset: chars.len() as int,
        next: chars.len() + 1int,
    }));
    lemma_reindex_shape(t, root_id);
}

/// Round trip of parse-then-write: for a canonical, whitespace-free Newick
/// string (the written text of some tree `t`), writing what the parser
/// returns reproduces the input text exactly, whatever the starting index.
pub proof fn lemma_parse_then_write(t: TreeModel, root_id: int, parsed: TreeModel)
    requires
        spec_parse_newick(newick_full(t), 0, false, root_id) == Ok::<TreeModel, ParserError>(parsed),
    ensures
        newick_full(parsed) == newick_full(t),
{
    lemma_write_then_parse(t, false, root_id);
    assert(parsed == reindex(t, root_id));
    lemma_reindex_shape(t, root_id);
}

/// The parser never returns `Short` for the canonical fuel, so a successful
/// top-level parse comes from a `Done` outcome.
proof fn lemma_parse_newick_ok_inverts(s: Seq<char>, pos: int, ws: bool, root_id: int, t: TreeModel)
    requires
        0 <= pos <= s.len(),
        spec_parse_newick(s, pos, ws, root_id) == Ok::<TreeModel, ParserError>(t),
    ensures
        spec_parse(s, pos, ws, root_id) matches ParseOutcome::Done { tree, .. } && tree == t,
{
    lemma_parse_node_fuel(
        s,
        pos,
        ws,
        root_id,
        ((s.len() - pos + 1) as nat),
        ((s.len() - pos + 1) as nat),
    );
}

/// Every inner node of a parsed tree is well indexed in pre-order: the root
/// carries `root_id`, a node's own index is smaller than every index in its
/// left subtree, and those all precede the indices of its right subtree.
pub proof fn lemma_parse_node_well_indexed(s: Seq<char>, pos: int, ws: bool, own_id: int, fuel: nat)
    requires
        0 <= pos <= s.len(),
    ensures
        spec_parse_node(s, pos, ws, own_id, fuel) matches ParseOutcome::Done { tree, .. }
            ==> well_indexed(tree, own_id),
    decreases fuel,
{
    if fuel > 0 {
        match spec_lex_step(s, pos, ws) {
            LexStep::Tok { kind, offset, next } => match kind {
                TokenType::ParOpen => {
                    crate::newick::lexer::lemma_lex_step_bounds(s, pos, ws);
                    lemma_parse_node_well_indexed(s, next, ws, own_id + 1, (fuel - 1) as nat);
                    lemma_parse_node_bounds(s, next, ws, own_id + 1, (fuel - 1) as nat);
                    match spec_parse_node(s, next, ws, own_id + 1, (fuel - 1) as nat) {
                        ParseOutcome::Done { tree: lt, next_id: lid, pos: lpos } => {
                            crate::newick::lexer::lemma_lex_step_bounds(s, lpos, ws);
                            match spec_lex_step(s, lpos, ws) {
                                LexStep::Tok { kind: k2, offset: o2, next: n2 } => {
                                    if k2 is Comma {
                                        lemma_parse_node_well_indexed(s, n2, ws, lid, (fuel - 1) as nat);
                                        lemma_parse_node_bounds(s, n2, ws, lid, (fuel - 1) as nat);
                                    }
                                },
                                _ => {},
                            }
                        },
                        _ => {},
                    }
                },
                _ => {},
            },
            _ => {},
        }
    }
}

/// Node-index pre-order invariant of a successful top-level parse rooted at
/// `root_id`: the root's index is `root_id`, the left child's is
/// `root_id + 1`, and for any inner node its own index is strictly less than
/// every index in its left subtree, which in turn precede every index in its
/// right subtree; all indices lie in `[root_id, root_id + inner_count(t))`.
pub proof fn lemma_parse_newick_preorder(s: Seq<char>, pos: int, ws: bool, root_id: int, t: TreeModel)
    requires
        0 <= pos <= s.len(),
        spec_parse_newick(s, pos, ws, root_id) == Ok::<TreeModel, ParserError>(t),
    ensures
        well_indexed(t, root_id),
        indices_between(t, root_id, root_id + inner_count(t)),
{
    lemma_parse_newick_ok_inverts(s, pos, ws, root_id, t);
    lemma_parse_node_well_indexed(s, pos, ws, root_id, ((s.len() - pos + 1) as nat));
    lemma_well_indexed_bounds(t, root_id);
}

} // verus!
