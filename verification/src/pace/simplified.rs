//! Simplified interface to read PACE 2026 instances and extract all
//! information relevant for solvers. The interface is generic in
//! [`TreeBuilder`], allowing the calling code to specify its own binary tree
//! implementation. The only explicitly implemented function is
//! [`Instance::try_read`]; if successful, access retrieved data directly
//! from the struct.
//!
//! The whole composition, header handling, per-tree root indices, tree
//! decomposition capture and every error, is pinned down by
//! [`spec_read_instance`].

use crate::binary_tree::{erase_indices, NodeIdx, TreeBuilder, TreeModel};
use crate::newick::binary_tree_parser::{spec_parse_newick, BinaryTreeParser, ParserError};
use crate::pace::parameters::tree_decomposition::{json_td_of, TreeDecomposition};
use crate::pace::reader::{
    classify_line, lines_of, spec_classify, spec_lines, spec_parse_approx, spec_parse_header,
    spec_parse_param, spec_parse_stride, spec_trim, treedecomp_key, trim_str, try_parse_approx_line,
    try_parse_header, try_parse_param_line, try_parse_stride_line, is_treedecomp_key, LineClass,
    ReaderError,
};
use vstd::arithmetic::mul::lemma_mul_upper_bound;
use vstd::prelude::*;

verus! {

#[derive(Debug, PartialEq, Eq, Clone, Copy)]
pub enum SimplifiedReaderError {
    /// A malformed line, surfaced from the underlying reader with its
    /// original detail.
    ReaderError(ReaderError),
    /// A tree line whose content is no valid Newick text.
    NewickError(ParserError),
    /// Two headers in one stream. The underlying reader already rejects
    /// this case with the line numbers attached, so reads surface it as
    /// [`SimplifiedReaderError::ReaderError`]; the variant stays for
    /// visitors that track the header themselves.
    MultipleHeaders,
    /// A header declaring zero leaves.
    NoLeaves,
    /// A tree line before any header.
    NoHeader,
    /// Inner-node indices are 32 bits wide; an instance whose header and
    /// tree count would push a tree's index block past that range is
    /// rejected rather than silently renumbered.
    NodeIdxOverflow,
}

/// A fully materialized instance: leaf count, the trees in file order, and
/// the optional tree decomposition. Created once per successful read and
/// never updated; a new read produces a new instance.
#[derive(Debug)]
pub struct Instance<B: TreeBuilder> {
    pub num_leaves: usize,
    pub trees: Vec<B::Node>,
    pub tree_decomposition: Option<TreeDecomposition>,
}

impl<B: TreeBuilder> Clone for Instance<B> where B::Node: Clone {
    fn clone(&self) -> (res: Self)
        ensures
            res.num_leaves == self.num_leaves,
            res.trees@.len() == self.trees@.len(),
            forall|i: int|
                0 <= i < self.trees@.len() ==> cloned::<B::Node>(self.trees@[i], res.trees@[i]),
    {
        Instance {
            num_leaves: self.num_leaves,
            trees: self.trees.clone(),
            tree_decomposition: self.tree_decomposition.clone(),
        }
    }
}

/// Summary of a fully read instance, as mathematical values.
pub struct InstanceModel {
    pub num_leaves: usize,
    pub trees: Seq<TreeModel>,
    pub tree_decomposition: Option<(u32, Seq<Seq<u32>>, Seq<(u32, u32)>)>,
}

/// The assembler's running state: the header seen so far (line number and
/// leaf count), the trees parsed so far, and the last tree decomposition
/// seen (a later payload silently replaces an earlier one).
pub struct AssemblyState {
    pub header: Option<(usize, usize)>,
    pub trees: Seq<TreeModel>,
    pub tree_decomposition: Option<(u32, Seq<Seq<u32>>, Seq<(u32, u32)>)>,
}

/// The pre-order index given to the root of the tree on a tree line: tree
/// number `k` (0-based) of an instance with `nl` leaves starts its block of
/// `nl - 1` inner indices at `(k + 1) * (nl - 1) + 2`, so the blocks are
/// disjoint and the indices 0 and 1 stay free.
pub open spec fn spec_root_id(k: int, nl: int) -> int {
    (k + 1) * (nl - 1) + 2
}

/// The tree a successful parse returns.
pub open spec fn ok_tree(r: Result<TreeModel, ParserError>) -> TreeModel {
    match r {
        Ok(t) => t,
        Err(_) => arbitrary(),
    }
}

/// What reading `lines` from line `i` in state `st` produces: the finished
/// instance, or the first error.
pub open spec fn spec_assemble(lines: Seq<Seq<char>>, i: int, st: AssemblyState) -> Result<
    InstanceModel,
    SimplifiedReaderError,
>
    decreases lines.len() - i,
{
    if !(0 <= i < lines.len()) {
        Ok(InstanceModel {
            num_leaves: match st.header {
                Some(h) => h.1,
                None => 0,
            },
            trees: st.trees,
            tree_decomposition: st.tree_decomposition,
        })
    } else {
        let c = spec_trim(lines[i]);
        match spec_classify(c) {
            LineClass::Empty => spec_assemble(lines, i + 1, st),
            LineClass::Comment => spec_assemble(lines, i + 1, st),
            LineClass::Header => match st.header {
                Some(h) => Err(
                    SimplifiedReaderError::ReaderError(
                        ReaderError::MultipleHeaders { lineno0: h.0, lineno1: i as usize },
                    ),
                ),
                None => match spec_parse_header(c) {
                    None => Err(
                        SimplifiedReaderError::ReaderError(
                            ReaderError::InvalidHeaderLine { lineno: i as usize },
                        ),
                    ),
                    Some(h) => if h.1 == 0 {
                        Err(SimplifiedReaderError::NoLeaves)
                    } else {
                        spec_assemble(
                            lines,
                            i + 1,
                            AssemblyState { header: Some((i as usize, h.1)), ..st },
                        )
                    },
                },
            },
            LineClass::Stride => if spec_parse_stride(c) is Some {
                spec_assemble(lines, i + 1, st)
            } else {
                Err(
                    SimplifiedReaderError::ReaderError(
                        ReaderError::InvalidStrideLine { lineno: i as usize },
                    ),
                )
            },
            LineClass::Approx => if spec_parse_approx(c) is Some {
                spec_assemble(lines, i + 1, st)
            } else {
                Err(
                    SimplifiedReaderError::ReaderError(
                        ReaderError::InvalidApproxLine { lineno: i as usize },
                    ),
                )
            },
            LineClass::Param => match spec_parse_param(c) {
                None => Err(
                    SimplifiedReaderError::ReaderError(
                        ReaderError::InvalidParameterLine { lineno: i as usize },
                    ),
                ),
                Some(kv) => if kv.0 != treedecomp_key() {
                    Err(
                        SimplifiedReaderError::ReaderError(
                            ReaderError::UnknownParameter { lineno: i as usize },
                        ),
                    )
                } else {
                    match json_td_of(kv.1) {
                        None => Err(
                            SimplifiedReaderError::ReaderError(
                                ReaderError::InvalidJSON { lineno: i as usize },
                            ),
                        ),
                        Some(m) => spec_assemble(
                            lines,
                            i + 1,
                            AssemblyState { tree_decomposition: Some(m), ..st },
                        ),
                    }
                },
            },
            LineClass::OtherHash => spec_assemble(lines, i + 1, st),
            LineClass::Other => spec_assemble(lines, i + 1, st),
            LineClass::Tree => match st.header {
                None => Err(SimplifiedReaderError::NoHeader),
                Some(h) => {
                    let rid = spec_root_id(st.trees.len() as int, h.1 as int);
                    if rid + c.len() > u32::MAX {
                        Err(SimplifiedReaderError::NodeIdxOverflow)
                    } else {
                        match spec_parse_newick(c, 0, false, rid) {
                            Err(e) => Err(SimplifiedReaderError::NewickError(e)),
                            Ok(tree) => spec_assemble(
                                lines,
                                i + 1,
                                AssemblyState { trees: st.trees.push(tree), ..st },
                            ),
                        }
                    }
                },
            },
        }
    }
}

/// What reading `lines` produces, from the empty starting state.
pub open spec fn spec_read_instance(lines: Seq<Seq<char>>) -> Result<
    InstanceModel,
    SimplifiedReaderError,
> {
    spec_assemble(
        lines,
        0,
        AssemblyState { header: None, trees: Seq::empty(), tree_decomposition: None },
    )
}

impl<B: TreeBuilder> Instance<B> {
    /// Reads a complete instance from `input`: the header gives the leaf
    /// count, every tree line is parsed through `tree_builder` with the
    /// pre-order root index [`spec_root_id`] names, and a `treedecomp`
    /// parameter is captured into the optional field. The first malformed
    /// line aborts the whole read; [`spec_read_instance`] says exactly
    /// which instance or which error comes back.
    pub fn try_read(input: &str, tree_builder: &mut B) -> (r: Result<
        Instance<B>,
        SimplifiedReaderError,
    >)
        ensures
            match spec_read_instance(spec_lines(input@)) {
                Ok(m) => r matches Ok(inst) && inst.num_leaves == m.num_leaves
                    && inst.trees@.len() == m.trees.len() && (forall|k: int|
                    0 <= k < m.trees.len() ==> B::node_model(&inst.trees@[k]) == (
                    if B::keeps_index() {
                        m.trees[k]
                    } else {
                        erase_indices(m.trees[k])
                    })) && (match inst.tree_decomposition {
                    Some(td) => m.tree_decomposition matches Some(mm) && td.model() == mm,
                    None => m.tree_decomposition is None,
                }),
                Err(e) => r matches Err(e2) && e2 == e,
            },
    {
        let lines = lines_of(input);
        let ghost ls = spec_lines(input@);
        let mut header: Option<(usize, usize)> = None;
        let mut trees: Vec<B::Node> = Vec::new();
        let mut tree_decomposition: Option<TreeDecomposition> = None;
        let ghost mut tmodels: Seq<TreeModel> = Seq::empty();
        let mut lineno: usize = 0;
        while lineno < lines.len()
            invariant
                lineno <= lines.len(),
                ls == spec_lines(input@),
                lines@.len() == ls.len(),
                forall|k: int| 0 <= k < ls.len() ==> #[trigger] lines@[k]@ == ls[k],
                header matches Some(h) ==> h.1 >= 1,
                tmodels.len() == trees@.len(),
                forall|k: int|
                    0 <= k < tmodels.len() ==> B::node_model(&trees@[k]) == (
                    if B::keeps_index() {
                        tmodels[k]
                    } else {
                        erase_indices(tmodels[k])
                    }),
                spec_read_instance(ls) == spec_assemble(
                    ls,
                    lineno as int,
                    AssemblyState {
                        header,
                        trees: tmodels,
                        tree_decomposition: match tree_decomposition {
                            Some(td) => Some(td.model()),
                            None => None,
                        },
                    },
                ),
            decreases lines.len() - lineno,
        {
            let line = lines[lineno];
            let content = trim_str(line);
            proof {
                assert(content@ == spec_trim(ls[lineno as int]));
            }
            match classify_line(content) {
                LineClass::Empty => {},
                LineClass::Comment => {},
                LineClass::Header => {
                    match header {
                        Some(_) => {
                            let lineno0 = match header {
                                Some(h) => h.0,
                                None => 0,
                            };
                            return Err(
                                SimplifiedReaderError::ReaderError(
                                    ReaderError::MultipleHeaders { lineno0, lineno1: lineno },
                                ),
                            );
                        },
                        None => {
                            match try_parse_header(content) {
                                None => {
                                    return Err(
                                        SimplifiedReaderError::ReaderError(
                                            ReaderError::InvalidHeaderLine { lineno },
                                        ),
                                    );
                                },
                                Some((_, num_leaves)) => {
                                    if num_leaves == 0 {
                                        return Err(SimplifiedReaderError::NoLeaves);
                                    }
                                    header = Some((lineno, num_leaves));
                                },
                            }
                        },
                    }
                },
                LineClass::Stride => {
                    if try_parse_stride_line(content).is_none() {
                        return Err(
                            SimplifiedReaderError::ReaderError(
                                ReaderError::InvalidStrideLine { lineno },
                            ),
                        );
                    }
                },
                LineClass::Approx => {
                    if try_parse_approx_line(content).is_none() {
                        return Err(
                            SimplifiedReaderError::ReaderError(
                                ReaderError::InvalidApproxLine { lineno },
                            ),
                        );
                    }
                },
                LineClass::Param => {
                    match try_parse_param_line(content) {
                        None => {
                            return Err(
                                SimplifiedReaderError::ReaderError(
                                    ReaderError::InvalidParameterLine { lineno },
                                ),
                            );
                        },
                        Some((key, value)) => {
                            if !is_treedecomp_key(key) {
                                return Err(
                                    SimplifiedReaderError::ReaderError(
                                        ReaderError::UnknownParameter { lineno },
                                    ),
                                );
                            }
                            match TreeDecomposition::try_from_json(value) {
                                None => {
                                    return Err(
                                        SimplifiedReaderError::ReaderError(
                                            ReaderError::InvalidJSON { lineno },
                                        ),
                                    );
                                },
                                Some(td) => {
                                    tree_decomposition = Some(td);
                                },
                            }
                        },
                    }
                },
                LineClass::OtherHash => {},
                LineClass::Other => {},
                LineClass::Tree => {
                    let (_, num_leaves) = match header {
                        Some(p) => p,
                        None => {
                            return Err(SimplifiedReaderError::NoHeader);
                        },
                    };
                    let k = trees.len();
                    proof {
                        lemma_mul_upper_bound(
                            k as int + 1,
                            0x1_0000_0000_0000_0000,
                            num_leaves as int - 1,
                            0xFFFF_FFFF_FFFF_FFFE,
                        );
                    }
                    let rid_wide: u128 = (k as u128 + 1) * (num_leaves as u128 - 1) + 2;
                    let content_len = content.unicode_len();
                    if rid_wide + (content_len as u128) > 0xFFFF_FFFFu128 {
                        return Err(SimplifiedReaderError::NodeIdxOverflow);
                    }
                    let rid = NodeIdx::new(rid_wide as u32);
                    let ghost parsed = ok_tree(
                        spec_parse_newick(content@, 0, false, rid.0 as int),
                    );
                    let tree = match tree_builder.parse_newick_from_str(content, rid) {
                        Ok(t) => t,
                        Err(e) => {
                            return Err(SimplifiedReaderError::NewickError(e));
                        },
                    };
                    trees.push(tree);
                    proof {
                        tmodels = tmodels.push(parsed);
                    }
                },
            }
            lineno = lineno + 1;
        }
        let num_leaves = match header {
            Some(p) => p.1,
            None => 0,
        };
        Ok(Instance { num_leaves, trees, tree_decomposition })
    }
}

} // verus!
