//! The edge store: every registered edge, found by the kind it accepts and by
//! the kind it returns.
use crate::edge::{Edge, EdgeView};
use crate::variations::{lemma_finite, Int, Variations};
use std::collections::HashMap;
use vstd::prelude::*;

verus! {

/// The registered edges.
///
/// Edges are only ever added. Registering an edge a second time changes
/// nothing. Each edge has an index, its place in the order of registration,
/// under which both maps list it.
pub struct Graph {
    /// The edges, in the order in which they were first registered.
    edges: Vec<Edge>,
    /// For each kind, the indices of the edges that accept it.
    edges_in: HashMap<Int, Vec<usize>>,
    /// For each kind, the indices of the edges that return it.
    edges_out: HashMap<Int, Vec<usize>>,
}

/// The indices that `map` lists under `key`.
pub open spec fn bucket(map: Map<Int, Vec<usize>>, key: Int) -> Seq<usize> {
    if map.contains_key(key) {
        map[key]@
    } else {
        Seq::empty()
    }
}

/// Whether the index `i` is on `list`.
pub open spec fn lists(list: Seq<usize>, i: int) -> bool {
    exists|j: int| 0 <= j < list.len() && #[trigger] list[j] == i
}

/// Each index of `list` is greater than the one before it.
pub open spec fn ascending(list: Seq<usize>) -> bool {
    forall|i: int, j: int| 0 <= i < j < list.len() ==> list[i] < list[j]
}

/// The kind under which an index map lists `e`.
pub open spec fn key_of(e: EdgeView, accepted: bool) -> Int {
    if accepted {
        e.hash_in
    } else {
        e.hash_out
    }
}

/// `map` lists every edge of `edges` under its kind, in the order of the
/// indices, and nothing else.
pub open spec fn indexes(map: Map<Int, Vec<usize>>, edges: Seq<EdgeView>, accepted: bool) -> bool {
    &&& forall|k: Int, j: int|
        0 <= j < bucket(map, k).len() ==> (#[trigger] bucket(map, k)[j]) < edges.len() && key_of(
            edges[bucket(map, k)[j] as int],
            accepted,
        ) == k
    &&& forall|i: int|
        0 <= i < edges.len() ==> lists(bucket(map, key_of(#[trigger] edges[i], accepted)), i)
    &&& forall|k: Int| ascending(#[trigger] bucket(map, k))
}

impl View for Graph {
    type V = Set<EdgeView>;

    /// The set of registered edges.
    closed spec fn view(&self) -> Set<EdgeView> {
        self.edges().to_set()
    }
}

impl Graph {
    /// The registered edges in the order of their indices.
    pub closed spec fn edges(&self) -> Seq<EdgeView> {
        self.edges@.map_values(|e: Edge| e@)
    }

    /// The indices of the edges that accept the kind `hash`.
    pub closed spec fn outgoing(&self, hash: Int) -> Seq<usize> {
        bucket(self.edges_in@, hash)
    }

    /// The indices of the edges that return the kind `hash`.
    pub closed spec fn incoming(&self, hash: Int) -> Seq<usize> {
        bucket(self.edges_out@, hash)
    }

    /// Every tag that an edge of the graph depends on or hands out.
    pub open spec fn tags(&self) -> Set<Int> {
        tags_of(self.edges())
    }

    /// No edge is stored twice, no cost is negative, and the two maps list
    /// exactly the stored edges.
    pub closed spec fn wf(&self) -> bool {
        &&& self.edges().no_duplicates()
        &&& forall|i: int| 0 <= i < self.edges().len() ==> (#[trigger] self.edges()[i]).cost >= 0
        &&& indexes(self.edges_in@, self.edges(), true)
        &&& indexes(self.edges_out@, self.edges(), false)
    }

    /// What well-formedness means for the edges and the two listings.
    pub proof fn lemma_wf(&self)
        requires
            self.wf(),
        ensures
            self@ == self.edges().to_set(),
            self@.finite(),
            self.edges().no_duplicates(),
            forall|i: int|
                0 <= i < self.edges().len() ==> {
                    &&& (#[trigger] self.edges()[i]).cost >= 0
                    &&& self.edges()[i].hash_var_in.finite()
                    &&& self.edges()[i].hash_var_out.finite()
                    &&& self@.contains(self.edges()[i])
                },
            forall|e: EdgeView|
                self@.contains(e) ==> exists|i: int|
                    0 <= i < self.edges().len() && #[trigger] self.edges()[i] == e,
            forall|k: Int, j: int|
                0 <= j < self.outgoing(k).len() ==> (#[trigger] self.outgoing(k)[j])
                    < self.edges().len() && self.edges()[self.outgoing(k)[j] as int].hash_in == k,
            forall|i: int|
                0 <= i < self.edges().len() ==> lists(
                    self.outgoing((#[trigger] self.edges()[i]).hash_in),
                    i,
                ),
            forall|k: Int, j: int|
                0 <= j < self.incoming(k).len() ==> (#[trigger] self.incoming(k)[j])
                    < self.edges().len() && self.edges()[self.incoming(k)[j] as int].hash_out == k,
            forall|k: Int| ascending(#[trigger] self.outgoing(k)),
            forall|k: Int| ascending(#[trigger] self.incoming(k)),
            forall|i: int|
                0 <= i < self.edges().len() ==> lists(
                    self.incoming((#[trigger] self.edges()[i]).hash_out),
                    i,
                ),
    {
        broadcast use vstd::seq_lib::seq_to_set_is_finite;

        assert forall|i: int| 0 <= i < self.edges().len() implies {
            &&& (#[trigger] self.edges()[i]).hash_var_in.finite()
            &&& self.edges()[i].hash_var_out.finite()
            &&& self@.contains(self.edges()[i])
        } by {
            lemma_finite(&self.edges@[i].hash_var_in);
            lemma_finite(&self.edges@[i].hash_var_out);
        }
    }

    /// A graph without edges.
    pub fn new() -> (g: Graph)
        ensures
            g.wf(),
            g@ == Set::<EdgeView>::empty(),
            g.edges() == Seq::<EdgeView>::empty(),
    {
        let g = Graph { edges: Vec::new(), edges_in: HashMap::new(), edges_out: HashMap::new() };
        g
    }

    /// How many edges are registered.
    pub fn len(&self) -> (n: usize)
        ensures
            n == self.edges().len(),
    {
        self.edges.len()
    }

    /// The edge with index `i`.
    pub fn edge(&self, i: usize) -> (e: &Edge)
        requires
            i < self.edges().len(),
        ensures
            e@ == self.edges()[i as int],
    {
        &self.edges[i]
    }

    /// The indices of the edges that accept the kind `hash`, if there are any.
    pub fn out_edges(&self, hash: Int) -> (found: Option<&Vec<usize>>)
        ensures
            match found {
                Some(list) => list@ == self.outgoing(hash),
                None => self.outgoing(hash).len() == 0,
            },
    {
        broadcast use vstd::std_specs::hash::group_hash_axioms;

        self.edges_in.get(&hash)
    }

    /// The indices of the edges that return the kind `hash`, if there are any.
    pub fn in_edges(&self, hash: Int) -> (found: Option<&Vec<usize>>)
        ensures
            match found {
                Some(list) => list@ == self.incoming(hash),
                None => self.incoming(hash).len() == 0,
            },
    {
        broadcast use vstd::std_specs::hash::group_hash_axioms;

        self.edges_out.get(&hash)
    }

    /// The index of the stored edge that equals `edge`, if it is stored.
    fn position(&self, edge: &Edge) -> (found: Option<usize>)
        requires
            self.wf(),
        ensures
            match found {
                Some(i) => i < self.edges().len() && self.edges()[i as int] == edge@,
                None => !self@.contains(edge@),
            },
    {
        let list = match self.out_edges(edge.hash_in) {
            Some(list) => list,
            None => {
                return None;
            },
        };
        let mut j: usize = 0;
        while j < list.len()
            invariant
                j <= list.len(),
                self.wf(),
                list@ == self.outgoing(edge.hash_in),
                forall|k: int| 0 <= k < j ==> self.edges()[#[trigger] list@[k] as int] != edge@,
                forall|k: Int, j: int|
                    0 <= j < self.outgoing(k).len() ==> (#[trigger] self.outgoing(k)[j])
                        < self.edges().len(),
            decreases list.len() - j,
        {
            let i = list[j];
            if self.edges[i].same(edge) {
                return Some(i);
            }
            j += 1;
        }
        None
    }

    /// Lists the index `id` under `key`.
    fn enter(map: &mut HashMap<Int, Vec<usize>>, key: Int, id: usize)
        ensures
            bucket(final(map)@, key) == bucket(old(map)@, key).push(id),
            forall|k: Int| k != key ==> bucket(final(map)@, k) == bucket(old(map)@, k),
    {
        broadcast use vstd::std_specs::hash::group_hash_axioms;

        let mut list = match map.remove(&key) {
            Some(list) => list,
            None => Vec::new(),
        };
        list.push(id);
        map.insert(key, list);
    }

    /// Registers an edge. An edge that is already registered, with the same
    /// six values, is not stored again.
    pub fn add_edge(
        &mut self,
        cost: Int,
        hash_in: Int,
        hash_var_in: Variations,
        hash_out: Int,
        hash_var_out: Variations,
        hash_func: Int,
    )
        requires
            old(self).wf(),
            cost >= 0,
        ensures
            final(self).wf(),
            final(self)@ == old(self)@.insert(
                EdgeView {
                    cost: cost as int,
                    hash_in,
                    hash_out,
                    hash_func,
                    hash_var_in: hash_var_in@,
                    hash_var_out: hash_var_out@,
                },
            ),
            final(self).edges() == if old(self)@.contains(
                EdgeView {
                    cost: cost as int,
                    hash_in,
                    hash_out,
                    hash_func,
                    hash_var_in: hash_var_in@,
                    hash_var_out: hash_var_out@,
                },
            ) {
                old(self).edges()
            } else {
                old(self).edges().push(
                    EdgeView {
                        cost: cost as int,
                        hash_in,
                        hash_out,
                        hash_func,
                        hash_var_in: hash_var_in@,
                        hash_var_out: hash_var_out@,
                    },
                )
            },
    {
        let edge = Edge { cost, hash_in, hash_out, hash_func, hash_var_in, hash_var_out };
        if self.position(&edge).is_some() {
            return ;
        }
        let ghost before = self.edges();
        let ghost before_in = self.edges_in@;
        let ghost before_out = self.edges_out@;
        let ghost added = edge@;
        let id = self.edges.len();
        self.edges.push(edge);
        Self::enter(&mut self.edges_in, hash_in, id);
        Self::enter(&mut self.edges_out, hash_out, id);
        proof {
            let now = self.edges();
            assert(now == before.push(added));
            assert(now.to_set() == before.to_set().insert(added)) by {
                assert forall|e: EdgeView| now.to_set().contains(e) <==> before.to_set().insert(
                    added,
                ).contains(e) by {
                    if before.to_set().contains(e) {
                        let i = choose|i: int| 0 <= i < before.len() && before[i] == e;
                        assert(now[i] == e);
                    }
                    if e == added {
                        assert(now[id as int] == e);
                    }
                }
            }
            lemma_indexes_push(before_in, self.edges_in@, before, added, true);
            lemma_indexes_push(before_out, self.edges_out@, before, added, false);
        }
    }
}

/// Every tag that an edge of `edges` depends on or hands out.
pub open spec fn tags_of(edges: Seq<EdgeView>) -> Set<Int>
    decreases edges.len(),
{
    if edges.len() == 0 {
        Set::empty()
    } else {
        tags_of(edges.drop_last()).union(edges.last().hash_var_in).union(edges.last().hash_var_out)
    }
}

/// The tags of finitely many edges, each with finitely many tags, are
/// finitely many, and hold the tags of each edge.
pub proof fn lemma_tags_of(edges: Seq<EdgeView>)
    requires
        forall|i: int|
            0 <= i < edges.len() ==> (#[trigger] edges[i]).hash_var_in.finite()
                && edges[i].hash_var_out.finite(),
    ensures
        tags_of(edges).finite(),
        forall|i: int|
            0 <= i < edges.len() ==> (#[trigger] edges[i]).hash_var_in.subset_of(tags_of(edges))
                && edges[i].hash_var_out.subset_of(tags_of(edges)),
    decreases edges.len(),
{
    if edges.len() > 0 {
        let front = edges.drop_last();
        lemma_tags_of(front);
        assert forall|i: int| 0 <= i < edges.len() implies (#[trigger] edges[i]).hash_var_in.subset_of(
            tags_of(edges),
        ) && edges[i].hash_var_out.subset_of(tags_of(edges)) by {
            if i < front.len() {
                assert(front[i] == edges[i]);
            }
        }
    }
}

/// The most tags that any edge of `list` depends on (`accepted`) or hands
/// out; zero for no edge.
pub open spec fn most_tags(edges: Seq<EdgeView>, list: Seq<usize>, accepted: bool) -> nat
    decreases list.len(),
{
    if list.len() == 0 {
        0
    } else {
        let rest = most_tags(edges, list.drop_last(), accepted);
        let e = edges[list.last() as int];
        let count = if accepted {
            e.hash_var_in.len()
        } else {
            e.hash_var_out.len()
        };
        if count > rest {
            count
        } else {
            rest
        }
    }
}

/// Listing a new edge under its kind keeps an index map exact.
proof fn lemma_indexes_push(
    old_map: Map<Int, Vec<usize>>,
    new_map: Map<Int, Vec<usize>>,
    edges: Seq<EdgeView>,
    added: EdgeView,
    accepted: bool,
)
    requires
        indexes(old_map, edges, accepted),
        edges.len() <= usize::MAX,
        bucket(new_map, key_of(added, accepted)) == bucket(old_map, key_of(added, accepted)).push(
            edges.len() as usize,
        ),
        forall|k: Int|
            k != key_of(added, accepted) ==> bucket(new_map, k) == bucket(old_map, k),
    ensures
        indexes(new_map, edges.push(added), accepted),
{
    let now = edges.push(added);
    assert forall|i: int| 0 <= i < now.len() implies lists(
        bucket(new_map, key_of(#[trigger] now[i], accepted)),
        i,
    ) by {
        let k = key_of(now[i], accepted);
        if i < edges.len() {
            let j = choose|j: int| 0 <= j < bucket(old_map, k).len() && bucket(old_map, k)[j] == i;
            assert(bucket(new_map, k)[j] == i);
        } else {
            assert(bucket(new_map, k)[bucket(old_map, k).len() as int] == i);
        }
    }
}

} // verus!
