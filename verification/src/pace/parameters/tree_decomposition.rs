//! Container for the `treedecomp` parameter of an instance.
//!
//! The payload is carried in the instance file as one JSON array of exactly
//! three elements, `[treewidth, bags, edges]`, in that fixed order; any other
//! shape fails to decode. The JSON encoding and decoding themselves are done
//! by serde_json and are treated as an opaque parse-and-return step: the two
//! uninterpreted functions [`json_td_of`] and [`json_td_string`] name their
//! results, and everything around them is verified against those names.

use vstd::prelude::*;

verus! {

/// Container to store the `treedecomp` parameter. Recall that all indices
/// are 1-based, i.e. the edge `(u, v)` refers to `bags[u-1]` and
/// `bags[v-1]`.
#[derive(Debug, Clone, PartialEq, Eq)]
pub struct TreeDecomposition {
    pub treewidth: u32,
    pub bags: Vec<Vec<u32>>,
    pub edges: Vec<(u32, u32)>,
}

/// What serde_json parses out of `s` when a
/// `(u32, Vec<Vec<u32>>, Vec<(u32, u32)>)` is requested: `None` where the
/// text is not a JSON array of exactly those three elements.
pub uninterp spec fn json_td_of(s: Seq<char>) -> Option<(u32, Seq<Seq<u32>>, Seq<(u32, u32)>)>;

/// The compact JSON text serde_json produces for the three components of a
/// tree decomposition.
pub uninterp spec fn json_td_string(tw: u32, bags: Seq<Seq<u32>>, edges: Seq<(u32, u32)>) -> Seq<
    char,
>;

/// Relies on serde_json::from_str: deserializing a
/// `(u32, Vec<Vec<u32>>, Vec<(u32, u32)>)` accepts exactly a JSON array of
/// three elements of those shapes and rejects anything else; the result is a
/// function of the text alone.
#[verifier::external_body]
fn decode_td_parts(s: &str) -> (r: Option<(u32, Vec<Vec<u32>>, Vec<(u32, u32)>)>)
    ensures
        match r {
            Some(parts) => json_td_of(s@) == Some(
                (parts.0, parts.1.deep_view(), parts.2@),
            ),
            None => json_td_of(s@) is None,
        },
{
    serde_json::from_str::<(u32, Vec<Vec<u32>>, Vec<(u32, u32)>)>(s).ok()
}

/// Relies on serde_json::to_string: encoding integers, vectors and pairs
/// cannot fail, produces one compact JSON array, and is a function of the
/// values alone; serde_json decodes its own encoding of these plain shapes
/// back to the same values, which ties the two named results together.
#[verifier::external_body]
fn encode_td_parts(tw: u32, bags: &Vec<Vec<u32>>, edges: &Vec<(u32, u32)>) -> (r: String)
    ensures
        r@ == json_td_string(tw, bags.deep_view(), edges@),
        json_td_of(r@) == Some((tw, bags.deep_view(), edges@)),
{
    serde_json::to_string(&(tw, bags, edges)).unwrap()
}

impl TreeDecomposition {
    /// The three components as mathematical values.
    pub open spec fn model(&self) -> (u32, Seq<Seq<u32>>, Seq<(u32, u32)>) {
        (self.treewidth, self.bags.deep_view(), self.edges@)
    }

    /// Decodes a tree decomposition from its JSON text: `Some` exactly on a
    /// JSON array of three elements `[treewidth, bags, edges]`.
    pub fn try_from_json(s: &str) -> (r: Option<TreeDecomposition>)
        ensures
            match json_td_of(s@) {
                Some(m) => r matches Some(td) && td.model() == m,
                None => r is None,
            },
    {
        match decode_td_parts(s) {
            Some((treewidth, bags, edges)) => Some(TreeDecomposition { treewidth, bags, edges }),
            None => None,
        }
    }

    /// Encodes the tree decomposition back to its compact JSON text; decoding
    /// that text yields the same three components again.
    pub fn to_json(&self) -> (r: String)
        ensures
            r@ == json_td_string(self.treewidth, self.bags.deep_view(), self.edges@),
            json_td_of(r@) == Some(self.model()),
    {
        encode_td_parts(self.treewidth, &self.bags, &self.edges)
    }
}

} // verus!
