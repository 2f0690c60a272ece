//! Sets of edges, as the caller of a search hands them in.
use crate::edge::{Edge, EdgeView};
use vstd::prelude::*;

verus! {

/// A set of edges. Edges are the same when their six values agree.
pub struct EdgeSet {
    /// The members, each once.
    edges: Vec<Edge>,
}

impl View for EdgeSet {
    type V = Set<EdgeView>;

    closed spec fn view(&self) -> Set<EdgeView> {
        self.listed().to_set()
    }
}

impl EdgeSet {
    /// The members in the order in which they were added.
    pub closed spec fn listed(&self) -> Seq<EdgeView> {
        self.edges@.map_values(|e: Edge| e@)
    }

    /// No member is held twice.
    pub closed spec fn wf(&self) -> bool {
        self.listed().no_duplicates()
    }

    /// The members are finitely many, and the set is what is listed.
    pub proof fn lemma_wf(&self)
        requires
            self.wf(),
        ensures
            self@.finite(),
            self@.len() == self.listed().len(),
            self@ == self.listed().to_set(),
            self.listed().no_duplicates(),
    {
        broadcast use vstd::seq_lib::seq_to_set_is_finite;

        self.listed().unique_seq_to_set();
    }

    /// The empty set.
    pub fn new() -> (s: EdgeSet)
        ensures
            s.wf(),
            s@ == Set::<EdgeView>::empty(),
    {
        let s = EdgeSet { edges: Vec::new() };
        s
    }

    /// How many edges the set holds.
    pub fn len(&self) -> (n: usize)
        requires
            self.wf(),
        ensures
            n == self@.len(),
    {
        proof {
            self.lemma_wf();
        }
        self.edges.len()
    }

    /// Whether `edge` is in the set.
    pub fn contains(&self, edge: &Edge) -> (r: bool)
        ensures
            r == self@.contains(edge@),
    {
        let mut i: usize = 0;
        while i < self.edges.len()
            invariant
                i <= self.edges@.len(),
                forall|k: int| 0 <= k < i ==> (#[trigger] self.listed()[k]) != edge@,
            decreases self.edges@.len() - i,
        {
            if self.edges[i].same(edge) {
                assert(self.listed()[i as int] == edge@);
                return true;
            }
            i += 1;
        }
        false
    }

    /// Adds `edge`; says whether it was new.
    pub fn insert(&mut self, edge: Edge) -> (added: bool)
        requires
            old(self).wf(),
        ensures
            final(self).wf(),
            final(self)@ == old(self)@.insert(edge@),
            added == !old(self)@.contains(edge@),
            final(self).listed() == if added {
                old(self).listed().push(edge@)
            } else {
                old(self).listed()
            },
    {
        if self.contains(&edge) {
            return false;
        }
        let ghost before = self.listed();
        let ghost e = edge@;
        self.edges.push(edge);
        proof {
            assert(self.listed() == before.push(e));
            assert forall|x: EdgeView| self@.contains(x) <==> before.to_set().insert(e).contains(
                x,
            ) by {
                if before.to_set().contains(x) {
                    let i = choose|i: int| 0 <= i < before.len() && before[i] == x;
                    assert(self.listed()[i] == x);
                }
                if x == e {
                    assert(self.listed()[before.len() as int] == x);
                }
            }
        }
        true
    }
}

} // verus!
