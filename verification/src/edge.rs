//! Edges: the transformers as the planner sees them.
use crate::variations::{is_equal, Int, Variations};
use vstd::prelude::*;

verus! {

/// One registered transformer: a step from the kind `hash_in` to the kind
/// `hash_out`.
///
/// It can be taken only on a value that carries every tag of `hash_var_in`.
/// Taking it consumes those tags and adds the tags of `hash_var_out`.
#[derive(Debug)]
pub struct Edge {
    /// What the step costs; never negative in a graph.
    pub cost: Int,
    /// The kind the transformer accepts.
    pub hash_in: Int,
    /// The kind the transformer returns.
    pub hash_out: Int,
    /// The transformer's own identifier.
    pub hash_func: Int,
    /// The tags the transformer depends on.
    pub hash_var_in: Variations,
    /// The tags that describe what the transformer returns.
    pub hash_var_out: Variations,
}

/// An edge as a mathematical value. Two edges are the same edge when their
/// views are equal.
#[verifier::ext_equal]
pub struct EdgeView {
    pub cost: int,
    pub hash_in: Int,
    pub hash_out: Int,
    pub hash_func: Int,
    pub hash_var_in: Set<Int>,
    pub hash_var_out: Set<Int>,
}

impl View for Edge {
    type V = EdgeView;

    open spec fn view(&self) -> EdgeView {
        EdgeView {
            cost: self.cost as int,
            hash_in: self.hash_in,
            hash_out: self.hash_out,
            hash_func: self.hash_func,
            hash_var_in: self.hash_var_in@,
            hash_var_out: self.hash_var_out@,
        }
    }
}

impl Edge {
    /// Whether `self` and `other` are the same edge: all six fields agree.
    pub fn same(&self, other: &Edge) -> (r: bool)
        ensures
            r == (self@ == other@),
    {
        self.cost == other.cost && self.hash_in == other.hash_in && self.hash_out == other.hash_out
            && self.hash_func == other.hash_func && is_equal(&self.hash_var_in, &other.hash_var_in)
            && is_equal(&self.hash_var_out, &other.hash_var_out)
    }

    /// A copy of the edge.
    pub fn duplicate(&self) -> (r: Edge)
        ensures
            r@ == self@,
    {
        Edge {
            cost: self.cost,
            hash_in: self.hash_in,
            hash_out: self.hash_out,
            hash_func: self.hash_func,
            hash_var_in: self.hash_var_in.clone(),
            hash_var_out: self.hash_var_out.clone(),
        }
    }
}

/// The edges of `v` as mathematical values, in order.
pub open spec fn views(v: Seq<Edge>) -> Seq<EdgeView> {
    v.map_values(|e: Edge| e@)
}

/// The plan that was found, if one was, as mathematical values.
pub open spec fn plan_view(found: Option<Vec<Edge>>) -> Option<Seq<EdgeView>> {
    match found {
        Some(path) => Some(views(path@)),
        None => None,
    }
}

} // verus!
