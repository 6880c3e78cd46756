//! Recursive-descent parser for the Newick grammar
//! `Tree := '(' Tree ',' Tree ')' | Number ; TopLevel := Tree ';'`,
//! parameterized over a pluggable [`TreeBuilder`].
//!
//! While parsing, each inner node is assigned a [`NodeIdx`] in pre-order: a
//! node gets the index it was called with, its left subtree the indices right
//! after it, and its right subtree the block after the left subtree's.
//!
//! The whole behaviour, token consumption, tree shape, index assignment and
//! error classification alike, is pinned down by [`spec_parse`] and
//! [`spec_parse_newick`].

use crate::binary_tree::{erase_indices, inner_count, Label, NodeIdx, TreeBuilder, TreeModel};
use crate::newick::lexer::{
    lemma_lex_step_bounds, spec_lex_step, LexStep, Lexer, LexerError, Token, TokenType,
};
use vstd::prelude::*;

verus! {

#[derive(Debug, PartialEq, Eq, Clone, Copy)]
pub enum ParserError {
    /// End of the token stream where a token was expected.
    UnexpectedEnd,
    /// Expected begin of a node definition, i.e. a label or an opening
    /// parenthesis.
    ExpectedNodeBegin { token: Token },
    /// Expected a comma between the two children of an inner node.
    ExpectedComma { token: Token },
    /// Expected the closing parenthesis of an inner node.
    ExpectedClosing { token: Token },
    /// Expected the end of the expression, i.e. `';'`.
    ExpectedEnd { token: Token },
    /// A lexer error, propagated verbatim.
    Lexer(LexerError),
}

/// Outcome of parsing one `Tree` nonterminal starting at some position: the
/// tree parsed together with the next unused node index and the position
/// after the consumed input, a parse error, or fuel exhaustion (which
/// [`lemma_parse_node_fuel`] rules out for the fuel [`spec_parse`] uses).
pub enum ParseOutcome {
    Done { tree: TreeModel, next_id: int, pos: int },
    Fail { err: ParserError },
    Short,
}

/// One `Tree` nonterminal parsed from `s` at `pos` with starting index
/// `own_id`, by recursive descent with one token of lookahead; `fuel` bounds
/// the recursion depth.
pub open spec fn spec_parse_node(s: Seq<char>, pos: int, ws: bool, own_id: int, fuel: nat) -> ParseOutcome
    decreases fuel,
{
    if fuel == 0 {
        ParseOutcome::Short
    } else {
        match spec_lex_step(s, pos, ws) {
            LexStep::End => ParseOutcome::Fail { err: ParserError::UnexpectedEnd },
            LexStep::Bad { character, offset, next } => ParseOutcome::Fail {
                err: ParserError::Lexer(
                    LexerError::UnexpectedChar { character, offset: offset as usize },
                ),
            },
            LexStep::Tok { kind, offset, next } => match kind {
                TokenType::Number(x) => ParseOutcome::Done {
                    tree: TreeModel::Leaf { label: x },
                    next_id: own_id,
                    pos: next,
                },
                TokenType::ParOpen => match spec_parse_node(s, next, ws, own_id + 1, (fuel - 1) as nat) {
                    ParseOutcome::Short => ParseOutcome::Short,
                    ParseOutcome::Fail { err } => ParseOutcome::Fail { err },
                    ParseOutcome::Done { tree: left_tree, next_id: left_next_id, pos: left_pos } => match spec_lex_step(s, left_pos, ws) {
                        LexStep::End => ParseOutcome::Fail { err: ParserError::UnexpectedEnd },
                        LexStep::Bad { character, offset, next: n2 } => ParseOutcome::Fail {
                            err: ParserError::Lexer(
                                LexerError::UnexpectedChar { character, offset: offset as usize },
                            ),
                        },
                        LexStep::Tok { kind: k2, offset: o2, next: n2 } => if !(k2 is Comma) {
                            ParseOutcome::Fail {
                                err: ParserError::ExpectedComma {
                                    token: Token { offset: o2 as usize, token_type: k2 },
                                },
                            }
                        } else {
                            match spec_parse_node(s, n2, ws, left_next_id, (fuel - 1) as nat) {
                                ParseOutcome::Short => ParseOutcome::Short,
                                ParseOutcome::Fail { err } => ParseOutcome::Fail { err },
                                ParseOutcome::Done { tree: right_tree, next_id: right_next_id, pos: right_pos } => match spec_lex_step(s, right_pos, ws) {
                                    LexStep::End => ParseOutcome::Fail {
                                        err: ParserError::UnexpectedEnd,
                                    },
                                    LexStep::Bad { character, offset, next: n3 } => ParseOutcome::Fail {
                                        err: ParserError::Lexer(
                                            LexerError::UnexpectedChar {
                                                character,
                                                offset: offset as usize,
                                            },
                                        ),
                                    },
                                    LexStep::Tok { kind: k3, offset: o3, next: n3 } => if !(k3 is ParClose) {
                                        ParseOutcome::Fail {
                                            err: ParserError::ExpectedClosing {
                                                token: Token { offset: o3 as usize, token_type: k3 },
                                            },
                                        }
                                    } else {
                                        ParseOutcome::Done {
                                            tree: TreeModel::Inner {
                                                idx: own_id,
                                                left: Box::new(left_tree),
                                                right: Box::new(right_tree),
                                            },
                                            next_id: right_next_id,
                                            pos: n3,
                                        }
                                    },
                                },
                            }
                        },
                    },
                },
                _ => ParseOutcome::Fail {
                    err: ParserError::ExpectedNodeBegin {
                        token: Token { offset: offset as usize, token_type: kind },
                    },
                },
            },
        }
    }
}

/// A successful parse consumes at least one character, stays within the
/// string, and hands out exactly one new index per inner node parsed.
pub proof fn lemma_parse_node_bounds(s: Seq<char>, pos: int, ws: bool, own_id: int, fuel: nat)
    requires
        0 <= pos <= s.len(),
    ensures
        match spec_parse_node(s, pos, ws, own_id, fuel) {
            ParseOutcome::Done { tree, next_id, pos: p2 } => pos < p2 <= s.len() && next_id
                == own_id + inner_count(tree) && inner_count(tree) <= p2 - pos,
            _ => true,
        },
    decreases fuel,
{
    if fuel > 0 {
        lemma_lex_step_bounds(s, pos, ws);
        match spec_lex_step(s, pos, ws) {
            LexStep::Tok { kind, offset, next } => match kind {
                TokenType::ParOpen => {
                    lemma_parse_node_bounds(s, next, ws, own_id + 1, (fuel - 1) as nat);
                    match spec_parse_node(s, next, ws, own_id + 1, (fuel - 1) as nat) {
                        ParseOutcome::Done { tree: lt, next_id: lid, pos: lpos } => {
                            lemma_lex_step_bounds(s, lpos, ws);
                            match spec_lex_step(s, lpos, ws) {
                                LexStep::Tok { kind: k2, offset: o2, next: n2 } => {
                                    if k2 is Comma {
                                        lemma_parse_node_bounds(s, n2, ws, lid, (fuel - 1) as nat);
                                        match spec_parse_node(s, n2, ws, lid, (fuel - 1) as nat) {
                                            ParseOutcome::Done { tree: rt, next_id: rid, pos: rpos } => {
                                                lemma_lex_step_bounds(s, rpos, ws);
                                            },
                                            _ => {},
                                        }
                                    }
                                },
                                _ => {},
                            }
                        },
                        _ => {},
                    }
                },
                _ => {},
            },
            _ => {},
        }
    }
}

/// Any fuel beyond the number of remaining characters gives the same
/// outcome, and never `Short`: each recursion step consumes at least one
/// character first.
pub proof fn lemma_parse_node_fuel(s: Seq<char>, pos: int, ws: bool, own_id: int, f1: nat, f2: nat)
    requires
        0 <= pos <= s.len(),
        f1 > s.len() - pos,
        f2 > s.len() - pos,
    ensures
        spec_parse_node(s, pos, ws, own_id, f1) == spec_parse_node(s, pos, ws, own_id, f2),
        !(spec_parse_node(s, pos, ws, own_id, f1) is Short),
    decreases f1,
{
    lemma_lex_step_bounds(s, pos, ws);
    match spec_lex_step(s, pos, ws) {
        LexStep::Tok { kind, offset, next } => match kind {
            TokenType::ParOpen => {
                lemma_parse_node_fuel(s, next, ws, own_id + 1, (f1 - 1) as nat, (f2 - 1) as nat);
                match spec_parse_node(s, next, ws, own_id + 1, (f1 - 1) as nat) {
                    ParseOutcome::Done { tree: lt, next_id: lid, pos: lpos } => {
                        lemma_parse_node_bounds(s, next, ws, own_id + 1, (f1 - 1) as nat);
                        lemma_lex_step_bounds(s, lpos, ws);
                        match spec_lex_step(s, lpos, ws) {
                            LexStep::Tok { kind: k2, offset: o2, next: n2 } => {
                                if k2 is Comma {
                                    lemma_parse_node_fuel(s, n2, ws, lid, (f1 - 1) as nat, (f2 - 1) as nat);
                                    match spec_parse_node(s, n2, ws, lid, (f1 - 1) as nat) {
                                        ParseOutcome::Done { tree: rt, next_id: rid, pos: rpos } => {
                                            lemma_parse_node_bounds(s, n2, ws, lid, (f1 - 1) as nat);
                                            lemma_lex_step_bounds(s, rpos, ws);
                                        },
                                        _ => {},
                                    }
                                }
                            },
                            _ => {},
                        }
                    },
                    _ => {},
                }
            },
            _ => {},
        },
        _ => {},
    }
}

/// One `Tree` nonterminal parsed from `s` at `pos`, with enough fuel that
/// the outcome is never `Short`.
pub open spec fn spec_parse(s: Seq<char>, pos: int, ws: bool, own_id: int) -> ParseOutcome {
    spec_parse_node(s, pos, ws, own_id, (s.len() - pos + 1) as nat)
}

/// A complete top-level parse at `pos`: one `Tree` nonterminal followed by a
/// semicolon; whatever follows the semicolon is not consumed.
pub open spec fn spec_parse_newick(s: Seq<char>, pos: int, ws: bool, root_id: int) -> Result<
    TreeModel,
    ParserError,
> {
    match spec_parse(s, pos, ws, root_id) {
        ParseOutcome::Done { tree, next_id, pos: p2 } => match spec_lex_step(s, p2, ws) {
            LexStep::Tok { kind, offset, next } => if kind is Semicolon {
                Ok(tree)
            } else {
                Err(ParserError::ExpectedEnd {
                    token: Token { offset: offset as usize, token_type: kind },
                })
            },
            LexStep::End => Err(ParserError::UnexpectedEnd),
            LexStep::Bad { character, offset, .. } => Err(
                ParserError::Lexer(LexerError::UnexpectedChar { character, offset: offset as usize }),
            ),
        },
        ParseOutcome::Fail { err } => Err(err),
        ParseOutcome::Short => arbitrary(),
    }
}

/// Where a successful top-level parse at `pos` leaves the input: right
/// after the trailing semicolon.
pub open spec fn spec_parse_newick_end(s: Seq<char>, pos: int, ws: bool, root_id: int) -> int {
    match spec_parse(s, pos, ws, root_id) {
        ParseOutcome::Done { pos: p2, .. } => match spec_lex_step(s, p2, ws) {
            LexStep::Tok { next, .. } => next,
            _ => p2,
        },
        _ => pos,
    }
}

/// Reads the next token, mapping the end of the stream and lexer errors to
/// the parser's error variants.
fn next_token(lexer: &mut Lexer) -> (r: Result<Token, ParserError>)
    requires
        old(lexer).wf(),
    ensures
        final(lexer).wf(),
        final(lexer).chars() == old(lexer).chars(),
        final(lexer).whitespace_mode() == old(lexer).whitespace_mode(),
        match spec_lex_step(old(lexer).chars(), old(lexer).position(), old(lexer).whitespace_mode()) {
            LexStep::End => r == Err::<Token, ParserError>(ParserError::UnexpectedEnd),
            LexStep::Tok { kind, offset, next } => r == Ok::<Token, ParserError>(
                Token { offset: offset as usize, token_type: kind },
            ) && final(lexer).position() == next,
            LexStep::Bad { character, offset, next } => r == Err::<Token, ParserError>(
                ParserError::Lexer(LexerError::UnexpectedChar { character, offset: offset as usize }),
            ) && final(lexer).position() == next,
        },
{
    match lexer.next() {
        None => Err(ParserError::UnexpectedEnd),
        Some(Err(e)) => Err(ParserError::Lexer(e)),
        Some(Ok(t)) => Ok(t),
    }
}

/// Parses one `Tree` nonterminal through `builder`, assigning `own_id` to
/// the node built here and pre-order indices below it; returns the node and
/// the next unused index. Exactly [`spec_parse`] at the lexer's position.
pub fn parse_inner<B: TreeBuilder>(builder: &mut B, lexer: &mut Lexer, own_id: NodeIdx) -> (r:
    Result<(B::Node, NodeIdx), ParserError>)
    requires
        old(lexer).wf(),
        own_id.0 + old(lexer).chars().len() - old(lexer).position() <= u32::MAX,
    ensures
        final(lexer).wf(),
        final(lexer).chars() == old(lexer).chars(),
        final(lexer).whitespace_mode() == old(lexer).whitespace_mode(),
        match spec_parse(
            old(lexer).chars(),
            old(lexer).position(),
            old(lexer).whitespace_mode(),
            own_id.0 as int,
        ) {
            ParseOutcome::Done { tree, next_id, pos } => r matches Ok((node, nid))
                && B::node_model(&node) == (if B::keeps_index() {
                tree
            } else {
                erase_indices(tree)
            }) && nid.0 as int == next_id && final(lexer).position() == pos,
            ParseOutcome::Fail { err } => r == Err::<(B::Node, NodeIdx), ParserError>(err),
            ParseOutcome::Short => false,
        },
    decreases old(lexer).chars().len() - old(lexer).position(),
{
    let ghost s = old(lexer).chars();
    let ghost p0 = old(lexer).position();
    let ghost ws = old(lexer).whitespace_mode();
    let ghost fcanon = (s.len() - p0 + 1) as nat;
    proof {
        lemma_lex_step_bounds(s, p0, ws);
        lemma_parse_node_fuel(s, p0, ws, own_id.0 as int, fcanon, fcanon);
    }
    let token = match next_token(lexer) {
        Ok(t) => t,
        Err(e) => {
            return Err(e);
        },
    };
    match token.token_type {
        TokenType::Number(x) => {
            let node = builder.new_leaf(Label(x));
            Ok((node, own_id))
        },
        TokenType::ParOpen => {
            let ghost popen = lexer.position();
            proof {
                lemma_parse_node_fuel(
                    s,
                    popen,
                    ws,
                    own_id.0 as int + 1,
                    (fcanon - 1) as nat,
                    (s.len() - popen + 1) as nat,
                );
            }
            let left = match parse_inner(builder, lexer, own_id.incremented()) {
                Ok(p) => p,
                Err(e) => {
                    return Err(e);
                },
            };
            let (left_node, next_id) = left;
            let ghost lpos = lexer.position();
            proof {
                lemma_parse_node_bounds(s, popen, ws, own_id.0 as int + 1, (s.len() - popen + 1) as nat);
                lemma_lex_step_bounds(s, lpos, ws);
            }
            let tok2 = match next_token(lexer) {
                Ok(t) => t,
                Err(e) => {
                    return Err(e);
                },
            };
            if tok2.token_type != TokenType::Comma {
                return Err(ParserError::ExpectedComma { token: tok2 });
            }
            let ghost pright = lexer.position();
            proof {
                lemma_parse_node_fuel(
                    s,
                    pright,
                    ws,
                    next_id.0 as int,
                    (fcanon - 1) as nat,
                    (s.len() - pright + 1) as nat,
                );
            }
            let right = match parse_inner(builder, lexer, next_id) {
                Ok(p) => p,
                Err(e) => {
                    return Err(e);
                },
            };
            let (right_node, next_id2) = right;
            let ghost rpos = lexer.position();
            proof {
                lemma_parse_node_bounds(s, pright, ws, next_id.0 as int, (s.len() - pright + 1) as nat);
                lemma_lex_step_bounds(s, rpos, ws);
            }
            let tok3 = match next_token(lexer) {
                Ok(t) => t,
                Err(e) => {
                    return Err(e);
                },
            };
            if tok3.token_type != TokenType::ParClose {
                return Err(ParserError::ExpectedClosing { token: tok3 });
            }
            let node = builder.new_inner(own_id, left_node, right_node);
            Ok((node, next_id2))
        },
        _ => Err(ParserError::ExpectedNodeBegin { token }),
    }
}

/// A Newick parser for any [`TreeBuilder`]: implementing the three builder
/// operations yields a full parser for free.
pub trait BinaryTreeParser: TreeBuilder {
    /// Parses one complete `Tree ';'` from the lexer's current position,
    /// assigning pre-order indices starting at `root_id`. Input after the
    /// semicolon is left unconsumed.
    fn parse_newick_from_lexer(&mut self, lexer: &mut Lexer, root_id: NodeIdx) -> (r: Result<
        Self::Node,
        ParserError,
    >)
        requires
            old(lexer).wf(),
            root_id.0 + old(lexer).chars().len() - old(lexer).position() <= u32::MAX,
        ensures
            final(lexer).wf(),
            final(lexer).chars() == old(lexer).chars(),
            final(lexer).whitespace_mode() == old(lexer).whitespace_mode(),
            match spec_parse_newick(
                old(lexer).chars(),
                old(lexer).position(),
                old(lexer).whitespace_mode(),
                root_id.0 as int,
            ) {
                Ok(tree) => r matches Ok(node) && Self::node_model(&node) == (if Self::keeps_index() {
                    tree
                } else {
                    erase_indices(tree)
                }) && final(lexer).position() == spec_parse_newick_end(
                    old(lexer).chars(),
                    old(lexer).position(),
                    old(lexer).whitespace_mode(),
                    root_id.0 as int,
                ),
                Err(e) => r == Err::<Self::Node, ParserError>(e),
            },
    ;

    /// Parses one complete `Tree ';'` from the start of `text` with a strict
    /// lexer (no whitespace allowed).
    fn parse_newick_from_str(&mut self, text: &str, root_id: NodeIdx) -> (r: Result<
        Self::Node,
        ParserError,
    >)
        requires
            root_id.0 + text@.len() <= u32::MAX,
        ensures
            match spec_parse_newick(text@, 0, false, root_id.0 as int) {
                Ok(tree) => r matches Ok(node) && Self::node_model(&node) == (if Self::keeps_index() {
                    tree
                } else {
                    erase_indices(tree)
                }),
                Err(e) => r == Err::<Self::Node, ParserError>(e),
            },
    {
        let mut lexer = Lexer::new(text);
        self.parse_newick_from_lexer(&mut lexer, root_id)
    }
}

impl<B: TreeBuilder> BinaryTreeParser for B {
    fn parse_newick_from_lexer(&mut self, lexer: &mut Lexer, root_id: NodeIdx) -> (r: Result<
        B::Node,
        ParserError,
    >) {
        let parsed = match parse_inner(self, lexer, root_id) {
            Ok(p) => p,
            Err(e) => {
                return Err(e);
            },
        };
        let (tree, _) = parsed;
        let tok = match next_token(lexer) {
            Ok(t) => t,
            Err(e) => {
                return Err(e);
            },
        };
        if tok.token_type != TokenType::Semicolon {
            return Err(ParserError::ExpectedEnd { token: tok });
        }
        Ok(self.make_root(tree))
    }
}

} // verus!
