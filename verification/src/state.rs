//! Search states and the scores by which the frontiers order them.
use crate::variations::{Int, Variations};
use vstd::prelude::*;

verus! {

/// One node of a search tree: an edge reached from one end of the query,
/// together with how it was reached.
///
/// States are never changed once made. A state names its predecessor by its
/// place among the states of the same direction, so many states can share
/// one predecessor.
pub struct State {
    /// The score by which the frontier orders the state; lower is served
    /// first.
    pub cost: Int,
    /// The sum of the costs of the edges from the root to here.
    pub actual_cost: Int,
    /// The index, in the graph, of the edge just taken.
    pub edge: usize,
    /// The state this one was expanded from; `None` for a root.
    pub parent: Option<usize>,
    /// The tags in play after this edge.
    pub variations: Variations,
}

/// A state as a mathematical value.
#[verifier::ext_equal]
pub struct StateView {
    pub cost: int,
    pub actual_cost: int,
    pub edge: int,
    pub parent: Option<int>,
    pub variations: Set<Int>,
}

impl View for State {
    type V = StateView;

    open spec fn view(&self) -> StateView {
        StateView {
            cost: self.cost as int,
            actual_cost: self.actual_cost as int,
            edge: self.edge as int,
            parent: match self.parent {
                Some(p) => Some(p as int),
                None => None,
            },
            variations: self.variations@,
        }
    }
}

/// `x`, or the bound of `Int` that it exceeds.
pub open spec fn clip(x: int) -> int {
    if x < Int::MIN {
        Int::MIN as int
    } else if x > Int::MAX {
        Int::MAX as int
    } else {
        x
    }
}

/// The multiplier of a step's cost: one, plus the tags in play (`total`),
/// less those the step accounts for (`count`).
pub open spec fn heuristic(total: int, count: int) -> int {
    1 + total - count
}

/// The score of a state reached at the score `base` by a step of the given
/// cost and multiplier: `base + cost * heuristic`, where each result that
/// leaves the range of `Int` is replaced by the bound it exceeds.
pub open spec fn scored(base: int, cost: int, heuristic: int) -> int {
    clip(base + clip(cost * clip(heuristic)))
}

/// `x` within the range of `Int`.
fn clipped(x: i128) -> (r: Int)
    ensures
        r == clip(x as int),
{
    if x < Int::MIN as i128 {
        Int::MIN
    } else if x > Int::MAX as i128 {
        Int::MAX
    } else {
        x as Int
    }
}

/// The multiplier for `total_a + total_b` tags in play of which
/// `count_a + count_b` are accounted for.
pub fn weigh(total_a: usize, total_b: usize, count_a: usize, count_b: usize) -> (h: i128)
    ensures
        h == heuristic(total_a + total_b, count_a + count_b),
{
    1 + total_a as i128 + total_b as i128 - count_a as i128 - count_b as i128
}

/// The score `base + cost * heuristic`, kept within the range of `Int`.
pub fn score(base: Int, cost: Int, heuristic: i128) -> (r: Int)
    ensures
        r == scored(base as int, cost as int, heuristic as int),
        Int::MIN <= heuristic <= Int::MAX && Int::MIN <= cost * heuristic <= Int::MAX && Int::MIN
            <= base + cost * heuristic <= Int::MAX ==> r == base + cost * heuristic,
{
    let h = clipped(heuristic);
    assert(-0x8000_0000_0000_0000 * 0x8000_0000_0000_0000 <= cost * h <= 0x8000_0000_0000_0000
        * 0x8000_0000_0000_0000) by (nonlinear_arith)
        requires
            -0x8000_0000_0000_0000 <= cost < 0x8000_0000_0000_0000,
            -0x8000_0000_0000_0000 <= h < 0x8000_0000_0000_0000,
    ;
    let step = clipped(cost as i128 * h as i128);
    clipped(base as i128 + step as i128)
}

/// The sum of costs `sum + cost`, kept within the range of `Int`.
pub fn accumulate(sum: Int, cost: Int) -> (r: Int)
    ensures
        r == clip(sum + cost),
{
    clipped(sum as i128 + cost as i128)
}

impl State {
    /// A state for `edge`, of cost `edge_cost`, reached from `parent`; of a
    /// parent the index and the sum of costs up to it are given.
    pub fn new(
        cost: Int,
        edge: usize,
        edge_cost: Int,
        parent: Option<(usize, Int)>,
        variations: Variations,
    ) -> (s: State)
        ensures
            s.cost == cost,
            s.edge == edge,
            s.variations == variations,
            s.parent == match parent {
                Some((index, _)) => Some(index),
                None => None,
            },
            s.actual_cost == match parent {
                Some((_, sum)) => clip(sum + edge_cost),
                None => edge_cost as int,
            },
            s@ == (StateView {
                cost: cost as int,
                actual_cost: match parent {
                    Some((_, sum)) => clip(sum + edge_cost),
                    None => edge_cost as int,
                },
                edge: edge as int,
                parent: match parent {
                    Some((index, _)) => Some(index as int),
                    None => None,
                },
                variations: variations@,
            }),
    {
        match parent {
            Some((index, sum)) => State {
                cost,
                actual_cost: accumulate(sum, edge_cost),
                edge,
                parent: Some(index),
                variations,
            },
            None => State { cost, actual_cost: edge_cost, edge, parent: None, variations },
        }
    }
}

} // verus!
