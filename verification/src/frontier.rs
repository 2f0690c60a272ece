//! One direction of a search: the states made so far, those that wait to be
//! expanded, and the index of those that have been.
use crate::counting::{
    lemma_fewer_left, lemma_total_equal, lemma_total_push, lemma_total_remove,
    lemma_universe_finite, total, universe,
};
use crate::edge::EdgeView;
use crate::graph::{lemma_tags_of, Graph};
use crate::state::{State, StateView};
use crate::variations::{is_equal, lemma_finite, Int, Variations};
use vstd::prelude::*;

verus! {

/// The states of one direction of a search.
///
/// `states` only grows, so the place of a state in it names the state for
/// good. `queue` holds the states that wait. `visited` lists, for each edge of
/// the graph, the expanded states on that edge, one for each set of tags with
/// which the edge was entered.
pub struct Frontier<'a> {
    /// The tags with which a root's edge is entered.
    pub seed: &'a Variations,
    /// Every state made so far.
    pub states: Vec<State>,
    /// The states that wait to be expanded.
    pub queue: Vec<usize>,
    /// For each edge, the states that were expanded on it.
    pub visited: Vec<Vec<usize>>,
    /// For each edge, a bound on the states that one expansion on it adds.
    pub fan: Ghost<Seq<nat>>,
    /// Every tag that can come into play.
    pub reach: Ghost<Set<Int>>,
}

/// The edges from the state `n` of `states` up to its root.
pub open spec fn chain(states: Seq<State>, n: int) -> Seq<usize>
    decreases n,
{
    match states[n].parent {
        Some(p) => if p < n {
            seq![states[n].edge] + chain(states, p as int)
        } else {
            seq![states[n].edge]
        },
        None => seq![states[n].edge],
    }
}

/// For each edge of the graph, how many edges accept the kind it returns
/// (`forward`), or return the kind it accepts.
pub open spec fn fans(graph: Graph, forward: bool) -> Seq<nat> {
    Seq::new(
        graph.edges().len(),
        |e: int|
            if forward {
                graph.outgoing(graph.edges()[e].hash_out).len()
            } else {
                graph.incoming(graph.edges()[e].hash_in).len()
            },
    )
}

/// The order among edges that breaks ties between states: by cost, then by
/// the kind accepted, the kind returned, and the transformer.
pub open spec fn edge_precedes(a: EdgeView, b: EdgeView) -> bool {
    ||| a.cost < b.cost
    ||| a.cost == b.cost && a.hash_in < b.hash_in
    ||| a.cost == b.cost && a.hash_in == b.hash_in && a.hash_out < b.hash_out
    ||| a.cost == b.cost && a.hash_in == b.hash_in && a.hash_out == b.hash_out && a.hash_func
        < b.hash_func
}

/// The order in which a frontier serves its states: by score, then by the sum
/// of costs, then by edge.
pub open spec fn precedes(edges: Seq<EdgeView>, a: State, b: State) -> bool {
    ||| a.cost < b.cost
    ||| a.cost == b.cost && a.actual_cost < b.actual_cost
    ||| a.cost == b.cost && a.actual_cost == b.actual_cost && edge_precedes(
        edges[a.edge as int],
        edges[b.edge as int],
    )
}

impl<'a> Frontier<'a> {
    /// The tags in play after the state `n`.
    pub open spec fn tags(&self, n: int) -> Set<Int> {
        self.states@[n].variations@
    }

    /// The edge of the state `n`.
    pub open spec fn edge(&self, n: int) -> int {
        self.states@[n].edge as int
    }

    /// The tags with which the state `n` entered its edge: those after its
    /// predecessor, or the seed.
    pub open spec fn key(&self, n: int) -> Set<Int> {
        match self.states@[n].parent {
            Some(p) => self.states@[p as int].variations@,
            None => self.seed@,
        }
    }

    /// The states made so far, as mathematical values.
    pub open spec fn trace(&self) -> Seq<StateView> {
        self.states@.map_values(|s: State| s@)
    }

    /// The waiting state at the place `at` of the queue is the one served
    /// next: none precedes it, and it precedes all that have waited longer.
    pub open spec fn first(&self, edges: Seq<EdgeView>, at: int) -> bool {
        &&& 0 <= at < self.queue@.len()
        &&& forall|j: int|
            0 <= j < self.queue@.len() ==> !precedes(
                edges,
                self.states@[#[trigger] self.queue@[j] as int],
                self.states@[self.queue@[at] as int],
            )
        &&& forall|j: int|
            0 <= j < at ==> precedes(
                edges,
                self.states@[self.queue@[at] as int],
                self.states@[#[trigger] self.queue@[j] as int],
            )
    }

    /// The place in the queue of the state served next.
    pub open spec fn next_up(&self, edges: Seq<EdgeView>) -> int {
        choose|at: int| self.first(edges, at)
    }

    /// Only one place holds the state served next.
    pub proof fn lemma_first_unique(&self, edges: Seq<EdgeView>, at: int)
        requires
            self.first(edges, at),
        ensures
            self.next_up(edges) == at,
    {
        let other = self.next_up(edges);
        if other < at {
            assert(precedes(
                edges,
                self.states@[self.queue@[at] as int],
                self.states@[self.queue@[other] as int],
            ));
            assert(!precedes(
                edges,
                self.states@[self.queue@[at] as int],
                self.states@[self.queue@[other] as int],
            ));
        } else if at < other {
            assert(precedes(
                edges,
                self.states@[self.queue@[other] as int],
                self.states@[self.queue@[at] as int],
            ));
            assert(!precedes(
                edges,
                self.states@[self.queue@[other] as int],
                self.states@[self.queue@[at] as int],
            ));
        }
    }

    /// The states listed as expanded on the edge `e`.
    pub open spec fn listing(&self, e: int) -> Seq<usize> {
        self.visited@[e]@
    }

    /// A bound on the states that an expansion of the state `n` adds.
    pub open spec fn spread(&self, n: int) -> nat {
        self.fan@[self.edge(n)]
    }

    /// Whether the edge `e` was expanded when entered with the tags `key`.
    pub open spec fn has(&self, e: int, key: Set<Int>) -> bool {
        exists|j: int|
            0 <= j < self.visited@[e]@.len() && self.key(#[trigger] self.visited@[e]@[j] as int)
                == key
    }

    /// Whether a state waits that enters the edge `e` with the tags `key`.
    pub open spec fn queued(&self, e: int, key: Set<Int>) -> bool {
        exists|j: int|
            0 <= j < self.queue@.len() && self.edge(#[trigger] self.queue@[j] as int) == e
                && self.key(self.queue@[j] as int) == key
    }

    /// The pairs of an edge and the tags it was entered with that have been
    /// expanded.
    pub open spec fn pairs(&self) -> Set<(int, Set<Int>)> {
        Set::new(|p: (int, Set<Int>)| 0 <= p.0 < self.visited@.len() && self.has(p.0, p.1))
    }

    /// The edge of the state `n` and the tags with which it entered the edge.
    pub open spec fn pair(&self, n: int) -> (int, Set<Int>) {
        (self.edge(n), self.key(n))
    }

    /// Whether the pair of the state `n` has been expanded.
    pub open spec fn known(&self, n: int) -> bool {
        self.has(self.edge(n), self.key(n))
    }

    /// What the state `n` can still cost the search while it waits: itself,
    /// and the states it adds if its pair has been expanded before. (One whose
    /// pair is new uses up the pair instead.)
    pub open spec fn weight(&self, n: int) -> nat {
        if self.known(n) {
            1 + self.spread(n)
        } else {
            1
        }
    }

    /// The weights of the waiting states.
    pub open spec fn weights(&self) -> Seq<nat> {
        Seq::new(self.queue@.len(), |j: int| self.weight(self.queue@[j] as int))
    }

    /// The sum of the weights of the waiting states.
    pub open spec fn backlog(&self) -> nat {
        total(self.weights())
    }

    /// How many pairs have not been expanded.
    pub open spec fn unexplored(&self) -> nat {
        universe(self.visited@.len(), self.reach@).difference(self.pairs()).len()
    }

    /// The state `n` is on an edge of the graph, was made after its
    /// predecessor, and has only tags that can come into play.
    pub open spec fn node_wf(&self, n: int) -> bool {
        &&& self.states@[n].edge < self.visited@.len()
        &&& self.states@[n].parent matches Some(p) ==> p < n
        &&& self.tags(n).subset_of(self.reach@)
    }

    /// The `j`-th state listed as expanded on the edge `e` is a state on `e`.
    pub open spec fn entry_wf(&self, e: int, j: int) -> bool {
        &&& self.visited@[e]@[j] < self.states@.len()
        &&& self.edge(self.visited@[e]@[j] as int) == e
    }

    /// The parts fit together, and no edge lists two states that entered it
    /// with the same tags.
    pub open spec fn wf(&self) -> bool {
        &&& self.fan@.len() == self.visited@.len()
        &&& self.reach@.finite()
        &&& self.seed@.subset_of(self.reach@)
        &&& forall|n: int| 0 <= n < self.states@.len() ==> #[trigger] self.node_wf(n)
        &&& forall|j: int|
            0 <= j < self.queue@.len() ==> (#[trigger] self.queue@[j]) < self.states@.len()
        &&& forall|e: int, j: int|
            0 <= e < self.visited@.len() && 0 <= j < self.visited@[e]@.len()
                ==> #[trigger] self.entry_wf(e, j)
        &&& forall|e: int, i: int, j: int|
            0 <= e < self.visited@.len() && 0 <= i < j < self.visited@[e]@.len() ==> self.key(
                #[trigger] self.visited@[e]@[i] as int,
            ) != self.key(#[trigger] self.visited@[e]@[j] as int)
    }

    /// Nothing has been made, waits or is listed, in a search of `graph` that
    /// starts with the tags `seed` and follows the edges (`forward`) or goes
    /// against them.
    pub open spec fn fresh(&self, seed: &Variations, graph: Graph, forward: bool) -> bool {
        &&& self.seed == seed
        &&& self.fan@ == fans(graph, forward)
        &&& self.reach@ == seed@.union(graph.tags())
        &&& self.states@.len() == 0
        &&& self.queue@.len() == 0
        &&& self.visited@.len() == graph.edges().len()
        &&& forall|e: int|
            0 <= e < self.visited@.len() ==> (#[trigger] self.visited@[e])@.len() == 0
    }

    /// The edges from the state `n` up to its root.
    pub open spec fn up(&self, n: int) -> Seq<usize> {
        chain(self.states@, n)
    }

    /// A frontier with nothing in it: for the search of `graph` from the value
    /// at hand (`forward`) or from what is asked for, starting with the tags
    /// `seed`.
    pub fn new(seed: &'a Variations, graph: &Graph, forward: bool) -> (f: Frontier<'a>)
        requires
            graph.wf(),
        ensures
            f.wf(),
            f.fresh(seed, *graph, forward),
    {
        let edges = graph.len();
        let mut visited: Vec<Vec<usize>> = Vec::new();
        let mut e: usize = 0;
        while e < edges
            invariant
                e <= edges,
                visited@.len() == e,
                forall|k: int| 0 <= k < e ==> (#[trigger] visited@[k])@.len() == 0,
            decreases edges - e,
        {
            visited.push(Vec::new());
            e += 1;
        }
        proof {
            lemma_finite(seed);
            graph.lemma_wf();
            lemma_tags_of(graph.edges());
        }
        Frontier {
            seed,
            states: Vec::new(),
            queue: Vec::new(),
            visited,
            fan: Ghost(fans(*graph, forward)),
            reach: Ghost(seed@.union(graph.tags())),
        }
    }

    /// The tags with which the state `n` entered its edge.
    pub fn key_of(&self, n: usize) -> (key: &Variations)
        requires
            self.wf(),
            n < self.states@.len(),
        ensures
            key@ == self.key(n as int),
    {
        assert(self.node_wf(n as int));
        match self.states[n].parent {
            Some(p) => &self.states[p].variations,
            None => self.seed,
        }
    }

    /// Where the edge `e` lists a state that entered it with `tags`, if it
    /// lists one.
    pub fn find(&self, e: usize, tags: &Variations) -> (at: Option<usize>)
        requires
            self.wf(),
            e < self.visited@.len(),
        ensures
            match at {
                Some(j) => j < self.visited@[e as int]@.len() && self.key(
                    self.visited@[e as int]@[j as int] as int,
                ) == tags@,
                None => !self.has(e as int, tags@),
            },
    {
        let list = &self.visited[e];
        let mut j: usize = 0;
        while j < list.len()
            invariant
                j <= list.len(),
                self.wf(),
                e < self.visited@.len(),
                list == self.visited@[e as int],
                forall|k: int| 0 <= k < j ==> self.key(#[trigger] list@[k] as int) != tags@,
            decreases list.len() - j,
        {
            assert(self.entry_wf(e as int, j as int));
            if is_equal(self.key_of(list[j]), tags) {
                return Some(j);
            }
            j += 1;
        }
        None
    }

    /// Whether the edge `e` was expanded when entered with `tags`.
    pub fn seen(&self, e: usize, tags: &Variations) -> (r: bool)
        requires
            self.wf(),
            e < self.visited@.len(),
        ensures
            r == self.has(e as int, tags@),
    {
        self.find(e, tags).is_some()
    }

    /// The edges from the state `n` up to its root.
    pub fn lineage(&self, n: usize) -> (v: Vec<usize>)
        requires
            self.wf(),
            n < self.states@.len(),
        ensures
            v@ == self.up(n as int),
    {
        let mut v: Vec<usize> = Vec::new();
        let mut at: usize = n;
        loop
            invariant_except_break
                v@ + self.up(at as int) == self.up(n as int),
            invariant
                self.wf(),
                at < self.states@.len(),
            ensures
                v@ == self.up(n as int),
            decreases at,
        {
            assert(self.node_wf(at as int));
            v.push(self.states[at].edge);
            match self.states[at].parent {
                Some(p) => {
                    at = p;
                },
                None => {
                    break ;
                },
            }
        }
        v
    }

    /// Adds a state and lets it wait.
    pub fn push(&mut self, state: State) -> (n: usize)
        requires
            old(self).wf(),
            state.edge < old(self).visited@.len(),
            state.parent matches Some(p) ==> p < old(self).states@.len(),
            state.variations@.subset_of(old(self).reach@),
        ensures
            final(self).wf(),
            n == old(self).states@.len(),
            final(self).states@ == old(self).states@.push(state),
            final(self).queue@ == old(self).queue@.push(n),
            final(self).visited == old(self).visited,
            final(self).seed == old(self).seed,
            final(self).fan == old(self).fan,
            final(self).reach == old(self).reach,
            final(self).pairs() == old(self).pairs(),
            final(self).unexplored() == old(self).unexplored(),
            final(self).backlog() == old(self).backlog() + final(self).weight(n as int),
            pushed(*old(self), *final(self)),
    {
        let ghost before = *self;
        let n = self.states.len();
        self.states.push(state);
        self.queue.push(n);
        proof {
            lemma_grown(before, *self);
            assert forall|m: int| 0 <= m < self.states@.len() implies #[trigger] self.node_wf(m) by {
                if m < n {
                    assert(before.node_wf(m));
                }
            }
            assert forall|e: int, j: int|
                0 <= e < self.visited@.len() && 0 <= j < self.visited@[e]@.len()
                    implies #[trigger] self.entry_wf(e, j) by {
                assert(before.entry_wf(e, j));
            }
            assert forall|e: int, i: int, j: int|
                0 <= e < self.visited@.len() && 0 <= i < j < self.visited@[e]@.len()
                    implies self.key(#[trigger] self.visited@[e]@[i] as int) != self.key(
                #[trigger] self.visited@[e]@[j] as int,
            ) by {
                assert(before.entry_wf(e, i));
                assert(before.entry_wf(e, j));
            }
            assert(self.weights() == before.weights().push(self.weight(n as int)));
            lemma_total_push(before.weights(), self.weight(n as int));
            assert(self.states@.drop_last() == before.states@);
            assert(self.queue@.drop_last() == before.queue@);
        }
        n
    }

    /// Whether the state `a` is served before the state `b`.
    pub fn comes_before(&self, graph: &Graph, a: usize, b: usize) -> (r: bool)
        requires
            self.wf(),
            graph.edges().len() == self.visited@.len(),
            a < self.states@.len(),
            b < self.states@.len(),
        ensures
            r == precedes(graph.edges(), self.states@[a as int], self.states@[b as int]),
    {
        assert(self.node_wf(a as int));
        assert(self.node_wf(b as int));
        let x = &self.states[a];
        let y = &self.states[b];
        if x.cost != y.cost {
            return x.cost < y.cost;
        }
        if x.actual_cost != y.actual_cost {
            return x.actual_cost < y.actual_cost;
        }
        let e = graph.edge(x.edge);
        let f = graph.edge(y.edge);
        if e.cost != f.cost {
            return e.cost < f.cost;
        }
        if e.hash_in != f.hash_in {
            return e.hash_in < f.hash_in;
        }
        if e.hash_out != f.hash_out {
            return e.hash_out < f.hash_out;
        }
        e.hash_func < f.hash_func
    }

    /// Takes out the waiting state that is served first: one that no other
    /// precedes and, among several such, the one that has waited longest.
    pub fn pop(&mut self, graph: &Graph) -> (served: Option<usize>)
        requires
            old(self).wf(),
            graph.edges().len() == old(self).visited@.len(),
        ensures
            final(self).wf(),
            final(self).states == old(self).states,
            final(self).visited == old(self).visited,
            final(self).seed == old(self).seed,
            final(self).fan == old(self).fan,
            final(self).reach == old(self).reach,
            final(self).pairs() == old(self).pairs(),
            final(self).unexplored() == old(self).unexplored(),
            match served {
                None => old(self).queue@.len() == 0 && *final(self) == *old(self),
                Some(n) => {
                    &&& old(self).first(graph.edges(), old(self).next_up(graph.edges()))
                    &&& n == old(self).queue@[old(self).next_up(graph.edges())]
                    &&& taken(*old(self), *final(self), old(self).next_up(graph.edges()))
                    &&& n < old(self).states@.len()
                    &&& final(self).backlog() + old(self).weight(n as int) == old(self).backlog()
                },
            },
    {
        if self.queue.len() == 0 {
            return None;
        }
        let ghost before = *self;
        let mut best: usize = 0;
        let mut j: usize = 1;
        while j < self.queue.len()
            invariant
                *self == before,
                self.wf(),
                graph.edges().len() == self.visited@.len(),
                best < j <= self.queue@.len(),
                forall|k: int|
                    0 <= k < j ==> !precedes(
                        graph.edges(),
                        self.states@[#[trigger] self.queue@[k] as int],
                        self.states@[self.queue@[best as int] as int],
                    ),
                forall|k: int|
                    0 <= k < best ==> precedes(
                        graph.edges(),
                        self.states@[self.queue@[best as int] as int],
                        self.states@[#[trigger] self.queue@[k] as int],
                    ),
            decreases self.queue@.len() - j,
        {
            if self.comes_before(graph, self.queue[j], self.queue[best]) {
                best = j;
            }
            j += 1;
        }
        let n = self.queue.remove(best);
        proof {
            before.lemma_first_unique(graph.edges(), best as int);
            assert forall|m: int| 0 <= m < self.states@.len() implies #[trigger] self.node_wf(m) by {
                assert(before.node_wf(m));
            }
            assert forall|e: int, k: int|
                0 <= e < self.visited@.len() && 0 <= k < self.visited@[e]@.len()
                    implies #[trigger] self.entry_wf(e, k) by {
                assert(before.entry_wf(e, k));
            }
            assert(self.pairs() =~= before.pairs());
            assert(self.weights() =~= before.weights().remove(best as int));
            lemma_total_remove(before.weights(), best as int);
        }
        Some(n)
    }

    /// Lists the state `n` as expanded on its edge, in place of the state
    /// listed there that entered the edge with the same tags, if there is one.
    pub fn record(&mut self, n: usize)
        requires
            old(self).wf(),
            n < old(self).states@.len(),
        ensures
            final(self).wf(),
            final(self).states == old(self).states,
            final(self).queue == old(self).queue,
            final(self).seed == old(self).seed,
            final(self).fan == old(self).fan,
            final(self).reach == old(self).reach,
            final(self).visited@.len() == old(self).visited@.len(),
            final(self).pairs() == old(self).pairs().insert(old(self).pair(n as int)),
            forall|e: int, key: Set<Int>|
                0 <= e < old(self).visited@.len() ==> (#[trigger] final(self).has(e, key)
                    <==> old(self).has(e, key) || (e, key) == old(self).pair(n as int)),
            forall|e: int, j: int|
                0 <= e < final(self).visited@.len() && 0 <= j < final(self).visited@[e]@.len() ==> {
                    ||| (#[trigger] final(self).visited@[e]@[j]) == n
                    ||| old(self).visited@[e]@.contains(final(self).visited@[e]@[j])
                },
            final(self).visited@[old(self).edge(n as int)]@.contains(n),
            relisted(*old(self), *final(self), n as int),
            old(self).known(n as int) ==> final(self).unexplored() == old(self).unexplored()
                && final(self).backlog() == old(self).backlog(),
            !old(self).known(n as int) ==> final(self).unexplored() < old(self).unexplored(),
    {
        let ghost before = *self;
        assert(self.node_wf(n as int));
        let e = self.states[n].edge;
        let at = self.find(e, self.key_of(n));
        match at {
            Some(j) => {
                self.visited[e].set(j, n);
                proof {
                    lemma_relisted(before, *self, n as int, j as int);
                    assert(before.key(before.listing(e as int)[j as int] as int) == before.key(
                        n as int,
                    ));
                }
            },
            None => {
                self.visited[e].push(n);
                proof {
                    lemma_listed(before, *self, n as int);
                }
            },
        }
    }
}

/// The numbers from `from` on, `count` of them.
pub open spec fn numbers(from: nat, count: nat) -> Seq<usize> {
    Seq::new(count, |i: int| (from + i) as usize)
}

/// `new` is `old` with the states `added` made and let wait, in that order.
/// Nothing else has changed.
pub open spec fn extended(old: Frontier, new: Frontier, added: Seq<StateView>) -> bool {
    &&& new.trace() == old.trace() + added
    &&& new.states@.len() == old.states@.len() + added.len()
    &&& forall|m: int| 0 <= m < old.states@.len() ==> new.states@[m] == old.states@[m]
    &&& new.queue@ == old.queue@ + numbers(old.states@.len(), added.len())
    &&& new.visited == old.visited
    &&& new.seed == old.seed
    &&& new.fan == old.fan
    &&& new.reach == old.reach
}

/// One more state that is added extends the frontier by one more.
pub proof fn lemma_extended_push(old: Frontier, mid: Frontier, new: Frontier, added: Seq<StateView>)
    requires
        extended(old, mid, added),
        pushed(mid, new),
    ensures
        extended(old, new, added.push(new.states@.last()@)),
{
    let more = added.push(new.states@.last()@);
    assert(new.trace() == old.trace() + more) by {
        assert forall|m: int| 0 <= m < new.trace().len() implies new.trace()[m] == (old.trace()
            + more)[m] by {
            if m < mid.states@.len() {
                assert(new.trace()[m] == mid.trace()[m]);
            }
        }
    }
    assert(new.queue@ == old.queue@ + numbers(old.states@.len(), more.len())) by {
        let want = old.queue@ + numbers(old.states@.len(), more.len());
        assert forall|k: int| 0 <= k < want.len() implies new.queue@[k] == want[k] by {
            if k < mid.queue@.len() {
                assert(new.queue@[k] == new.queue@.drop_last()[k]);
            }
        }
    }
}

/// `new` is `old` after the state `n` was listed as expanded on its edge: in
/// place of the state listed there that entered the edge with the same tags,
/// or, where there is none, at the end of the list.
pub open spec fn relisted(old: Frontier, new: Frontier, n: int) -> bool {
    let e = old.edge(n);
    &&& new.visited@.len() == old.visited@.len()
    &&& forall|other: int|
        0 <= other < old.visited@.len() && other != e ==> (#[trigger] new.visited@[other])
            == old.visited@[other]
    &&& !old.known(n) ==> new.listing(e) == old.listing(e).push(n as usize)
    &&& old.known(n) ==> exists|j: int|
        {
            &&& 0 <= j < old.listing(e).len()
            &&& old.key(#[trigger] old.listing(e)[j] as int) == old.key(n)
            &&& new.listing(e) == old.listing(e).update(j, n as usize)
        }
}

/// `new` is `old` without the waiting state at the place `at` of the queue.
/// Nothing else has changed.
pub open spec fn taken(old: Frontier, new: Frontier, at: int) -> bool {
    &&& 0 <= at < old.queue@.len()
    &&& new.states == old.states
    &&& new.queue@ == old.queue@.remove(at)
    &&& new.visited == old.visited
    &&& new.seed == old.seed
    &&& new.fan == old.fan
    &&& new.reach == old.reach
}

/// `new` is `old` after the waiting state at the place `at` of the queue was
/// taken out and listed as expanded, and the states `added` were made and let
/// wait, in that order.
pub open spec fn expanded(old: Frontier, new: Frontier, at: int, added: Seq<StateView>) -> bool {
    &&& 0 <= at < old.queue@.len()
    &&& new.trace() == old.trace() + added
    &&& new.states@.len() == old.states@.len() + added.len()
    &&& forall|m: int| 0 <= m < old.states@.len() ==> new.states@[m] == old.states@[m]
    &&& new.queue@ == old.queue@.remove(at) + numbers(old.states@.len(), added.len())
    &&& relisted(old, new, old.queue@[at] as int)
    &&& new.seed == old.seed
    &&& new.fan == old.fan
    &&& new.reach == old.reach
}

/// Taking a state out, listing it and adding states amount to an expansion.
pub proof fn lemma_expanded(
    old: Frontier,
    popped: Frontier,
    listed: Frontier,
    new: Frontier,
    at: int,
    added: Seq<StateView>,
)
    requires
        taken(old, popped, at),
        listed.states == popped.states,
        listed.queue == popped.queue,
        listed.seed == popped.seed,
        listed.fan == popped.fan,
        listed.reach == popped.reach,
        relisted(popped, listed, old.queue@[at] as int),
        extended(listed, new, added),
    ensures
        expanded(old, new, at, added),
{
    let n = old.queue@[at] as int;
    let e = old.edge(n);
    assert(popped.listing(e) == old.listing(e));
    if old.known(n) {
        let j = choose|j: int|
            {
                &&& 0 <= j < popped.listing(e).len()
                &&& popped.key(#[trigger] popped.listing(e)[j] as int) == popped.key(n)
                &&& listed.listing(e) == popped.listing(e).update(j, n as usize)
            };
    }
}

/// `new` is `old` with one more state, which waits.
pub open spec fn pushed(old: Frontier, new: Frontier) -> bool {
    &&& new.states@.len() == old.states@.len() + 1
    &&& new.states@.drop_last() == old.states@
    &&& new.queue@.len() == old.queue@.len() + 1
    &&& new.queue@.drop_last() == old.queue@
    &&& new.queue@.last() == old.states@.len()
    &&& new.visited == old.visited
    &&& new.seed == old.seed
    &&& new.fan == old.fan
    &&& new.reach == old.reach
}

/// States that are added change nothing of the states that were there, nor
/// of what has been expanded.
pub proof fn lemma_grown(old: Frontier, new: Frontier)
    requires
        old.wf(),
        old.states@.len() <= new.states@.len(),
        forall|m: int| 0 <= m < old.states@.len() ==> new.states@[m] == old.states@[m],
        new.visited == old.visited,
        new.seed == old.seed,
        new.fan == old.fan,
        new.reach == old.reach,
    ensures
        forall|m: int|
            #![trigger new.key(m)]
            #![trigger new.tags(m)]
            #![trigger new.edge(m)]
            #![trigger new.weight(m)]
            0 <= m < old.states@.len() ==> new.key(m) == old.key(m) && new.tags(m) == old.tags(m)
                && new.edge(m) == old.edge(m) && new.weight(m) == old.weight(m),
        forall|e: int, key: Set<Int>|
            0 <= e < old.visited@.len() ==> (#[trigger] new.has(e, key) <==> old.has(e, key)),
        new.pairs() == old.pairs(),
        new.unexplored() == old.unexplored(),
{
    assert forall|m: int| 0 <= m < old.states@.len() implies new.key(m) == old.key(m) by {
        assert(old.node_wf(m));
    }
    assert forall|e: int, key: Set<Int>| 0 <= e < old.visited@.len() implies (#[trigger] new.has(
        e,
        key,
    ) <==> old.has(e, key)) by {
        if old.has(e, key) {
            let j = choose|j: int|
                0 <= j < old.visited@[e]@.len() && old.key(#[trigger] old.visited@[e]@[j] as int)
                    == key;
            assert(old.entry_wf(e, j));
        }
        if new.has(e, key) {
            let j = choose|j: int|
                0 <= j < new.visited@[e]@.len() && new.key(#[trigger] new.visited@[e]@[j] as int)
                    == key;
            assert(old.entry_wf(e, j));
        }
    }
    assert(new.pairs() =~= old.pairs());
    assert forall|m: int| 0 <= m < old.states@.len() implies new.weight(m) == old.weight(m) by {
        assert(old.node_wf(m));
    }
}

/// What holds when the state `n` takes the place `j` in the list of its edge,
/// where a state stood that entered the edge with the same tags.
proof fn lemma_relisted(old: Frontier, new: Frontier, n: int, j: int)
    requires
        old.wf(),
        0 <= n < old.states@.len(),
        n <= usize::MAX,
        0 <= j < old.visited@[old.edge(n)]@.len(),
        old.key(old.visited@[old.edge(n)]@[j] as int) == old.key(n),
        new.states == old.states,
        new.queue == old.queue,
        new.seed == old.seed,
        new.fan == old.fan,
        new.reach == old.reach,
        new.visited@.len() == old.visited@.len(),
        new.visited@[old.edge(n)]@ == old.visited@[old.edge(n)]@.update(j, n as usize),
        forall|e: int|
            0 <= e < old.visited@.len() && e != old.edge(n) ==> new.visited@[e] == old.visited@[e],
    ensures
        new.wf(),
        forall|e: int, key: Set<Int>|
            0 <= e < old.visited@.len() ==> (#[trigger] new.has(e, key) <==> old.has(e, key)),
        old.known(n),
        new.pairs() == old.pairs(),
        new.pairs() == old.pairs().insert(old.pair(n)),
        new.unexplored() == old.unexplored(),
        new.backlog() == old.backlog(),
        forall|e: int, k: int|
            0 <= e < new.visited@.len() && 0 <= k < new.visited@[e]@.len() ==> {
                ||| (#[trigger] new.visited@[e]@[k]) == n
                ||| old.visited@[e]@.contains(new.visited@[e]@[k])
            },
        new.visited@[old.edge(n)]@.contains(n as usize),
{
    assert(old.node_wf(n));
    assert forall|e: int, k: int|
        0 <= e < new.visited@.len() && 0 <= k < new.visited@[e]@.len() implies new.key(
        #[trigger] new.visited@[e]@[k] as int,
    ) == old.key(old.visited@[e]@[k] as int) && new.entry_wf(e, k) && (new.visited@[e]@[k] == n
        || new.visited@[e]@[k] == old.visited@[e]@[k]) by {
        assert(old.entry_wf(e, k));
    }
    assert forall|m: int| 0 <= m < new.states@.len() implies #[trigger] new.node_wf(m) by {
        assert(old.node_wf(m));
    }
    assert forall|e: int, key: Set<Int>| 0 <= e < old.visited@.len() implies (#[trigger] new.has(
        e,
        key,
    ) <==> old.has(e, key)) by {
        if old.has(e, key) {
            let k = choose|k: int|
                0 <= k < old.visited@[e]@.len() && old.key(#[trigger] old.visited@[e]@[k] as int)
                    == key;
            assert(new.key(new.visited@[e]@[k] as int) == key);
        }
        if new.has(e, key) {
            let k = choose|k: int|
                0 <= k < new.visited@[e]@.len() && new.key(#[trigger] new.visited@[e]@[k] as int)
                    == key;
        }
    }
    assert(new.pairs() =~= old.pairs());
    assert(old.pairs().contains(old.pair(n)));
    assert forall|i: int| 0 <= i < new.queue@.len() implies new.weights()[i] == old.weights()[i] by {
        let m = new.queue@[i] as int;
        assert(old.node_wf(m));
    }
    lemma_total_equal(new.weights(), old.weights());
}

/// What holds when the state `n` is added to the list of its edge, which
/// held no state that entered the edge with the same tags.
proof fn lemma_listed(old: Frontier, new: Frontier, n: int)
    requires
        old.wf(),
        0 <= n < old.states@.len(),
        n <= usize::MAX,
        !old.known(n),
        new.states == old.states,
        new.queue == old.queue,
        new.seed == old.seed,
        new.fan == old.fan,
        new.reach == old.reach,
        new.visited@.len() == old.visited@.len(),
        new.visited@[old.edge(n)]@ == old.visited@[old.edge(n)]@.push(n as usize),
        forall|e: int|
            0 <= e < old.visited@.len() && e != old.edge(n) ==> new.visited@[e] == old.visited@[e],
    ensures
        new.wf(),
        forall|e: int, key: Set<Int>|
            0 <= e < old.visited@.len() ==> (#[trigger] new.has(e, key) <==> old.has(e, key) || (
            e,
            key,
        ) == old.pair(n)),
        new.pairs() == old.pairs().insert(old.pair(n)),
        new.unexplored() < old.unexplored(),
        forall|e: int, k: int|
            0 <= e < new.visited@.len() && 0 <= k < new.visited@[e]@.len() ==> {
                ||| (#[trigger] new.visited@[e]@[k]) == n
                ||| old.visited@[e]@.contains(new.visited@[e]@[k])
            },
        new.visited@[old.edge(n)]@.contains(n as usize),
{
    let at = old.edge(n);
    let last = old.visited@[at]@.len() as int;
    assert(old.node_wf(n));
    assert forall|e: int, k: int|
        0 <= e < new.visited@.len() && 0 <= k < new.visited@[e]@.len() implies new.entry_wf(e, k)
        && (if e == at && k == last {
        (#[trigger] new.visited@[e]@[k]) == n
    } else {
        new.visited@[e]@[k] == old.visited@[e]@[k] && k < old.visited@[e]@.len()
    }) by {
        if !(e == at && k == last) {
            assert(old.entry_wf(e, k));
        }
    }
    assert forall|m: int| 0 <= m < new.states@.len() implies #[trigger] new.node_wf(m) by {
        assert(old.node_wf(m));
    }
    assert forall|e: int, key: Set<Int>| 0 <= e < old.visited@.len() implies (#[trigger] new.has(
        e,
        key,
    ) <==> old.has(e, key) || (e, key) == old.pair(n)) by {
        if old.has(e, key) {
            let k = choose|k: int|
                0 <= k < old.visited@[e]@.len() && old.key(#[trigger] old.visited@[e]@[k] as int)
                    == key;
            assert(new.key(new.visited@[e]@[k] as int) == key);
        }
        if (e, key) == old.pair(n) {
            assert(new.key(new.visited@[e]@[last] as int) == key);
        }
        if new.has(e, key) {
            let k = choose|k: int|
                0 <= k < new.visited@[e]@.len() && new.key(#[trigger] new.visited@[e]@[k] as int)
                    == key;
        }
    }
    assert(new.pairs() =~= old.pairs().insert(old.pair(n)));
    let all = universe(old.visited@.len(), old.reach@);
    lemma_universe_finite(old.visited@.len(), old.reach@);
    assert(all.contains(old.pair(n))) by {
        match old.states@[n].parent {
            Some(p) => {
                assert(old.node_wf(p as int));
            },
            None => {},
        }
    }
    lemma_fewer_left(all, old.pairs(), old.pair(n));
    assert(new.visited@[at]@[last] == n);
}

} // verus!
