//! The bidirectional search.
use crate::edge::{plan_view, views, Edge, EdgeView};
use crate::edge_set::EdgeSet;
use crate::frontier::{extended, lemma_expanded, lemma_extended_push, lemma_grown, Frontier};
use crate::graph::{lemma_tags_of, most_tags, Graph};
use crate::plan::{answers, justified, valid, Query};
use crate::rules::{
    approach, backward_growth, backward_outcome, backward_path, backward_step, begun, child_out,
    children_in, children_out, counterpart_in, counterpart_out, forward_growth, forward_outcome,
    forward_path, forward_step, is_run, lemma_run_goes_on, outcome, root_out, roots_in, roots_out,
    searched, searched_from, trail,
};
use crate::soundness::{
    backward_scores, backward_sound, closed, closed_at, closed_except, forward_scores,
    forward_sound, lemma_backward_goal, lemma_backward_pushed, lemma_backward_served,
    lemma_exhausted, lemma_forward_dropped, lemma_forward_goal, lemma_forward_pushed,
    lemma_forward_served, lemma_meeting, lemma_scores_kept, lemma_scores_pushed, rooted, seeded,
};
use crate::state::{score, weigh, State};
use crate::variations::{is_subset, replace, shared, Int, Variations};
use vstd::prelude::*;

verus! {

/// One search: a query, the graph it is asked of, and the two frontiers.
///
/// The forward frontier starts at the edges that accept the query's kind and
/// follows edges in their direction. The backward frontier starts at the
/// edges that return the kind asked for and follows edges against their
/// direction.
pub struct Searcher<'a> {
    /// The graph that is searched.
    graph: &'a Graph,
    /// The kind of the value at hand.
    hash_in: Int,
    /// The kind asked for.
    hash_out: Int,
    /// The tags the value carries.
    hash_var_in: &'a Variations,
    /// The tags asked for.
    hash_var_out: &'a Variations,
    /// The edges that must not be used.
    skip_edges: &'a EdgeSet,
    /// The search from the value at hand.
    forward: Frontier<'a>,
    /// The search from what is asked for.
    backward: Frontier<'a>,
}

impl<'a> Searcher<'a> {
    /// The graph that is searched.
    pub closed spec fn graph(&self) -> Graph {
        *self.graph
    }

    /// The query that is answered.
    pub closed spec fn query(&self) -> Query {
        Query {
            hash_in: self.hash_in,
            hash_var_in: self.hash_var_in@,
            hash_out: self.hash_out,
            hash_var_out: self.hash_var_out@,
            skip_edges: self.skip_edges@,
        }
    }

    /// The search from the value at hand.
    pub closed spec fn forward(&self) -> Frontier<'a> {
        self.forward
    }

    /// The search from what is asked for.
    pub closed spec fn backward(&self) -> Frontier<'a> {
        self.backward
    }

    /// Both frontiers hold only states that the rules of their direction
    /// make.
    pub closed spec fn inv(&self) -> bool {
        &&& self.graph.wf()
        &&& forward_sound(self.graph.edges(), self.query(), self.forward)
        &&& backward_sound(self.graph.edges(), self.query(), self.backward)
        &&& forward_scores(self.graph.edges(), self.forward)
        &&& backward_scores(*self.graph, self.backward)
        &&& forall|e: int|
            0 <= e < self.graph.edges().len() ==> #[trigger] self.forward.fan@[e]
                == self.graph.outgoing(self.graph.edges()[e].hash_out).len()
        &&& forall|e: int|
            0 <= e < self.graph.edges().len() ==> #[trigger] self.backward.fan@[e]
                == self.graph.incoming(self.graph.edges()[e].hash_in).len()
    }

    /// Every step that can follow an expanded forward state has been
    /// expanded or waits.
    pub closed spec fn closed(&self) -> bool {
        closed(self.graph.edges(), self.query(), self.forward)
    }

    /// Every first step of a plan has been expanded forward or waits.
    pub closed spec fn seeded(&self) -> bool {
        seeded(self.graph.edges(), self.query(), self.forward)
    }

    /// How many forward states wait.
    pub open spec fn waiting_in(&self) -> nat {
        self.forward().queue@.len()
    }

    /// How many backward states wait.
    pub open spec fn waiting_out(&self) -> nat {
        self.backward().queue@.len()
    }

    /// How many pairs of an edge and a tag set the two frontiers have not
    /// expanded.
    pub closed spec fn unexplored(&self) -> nat {
        self.forward.unexplored() + self.backward.unexplored()
    }

    /// A bound on the states that will be served before a new pair is
    /// expanded.
    pub closed spec fn backlog(&self) -> nat {
        self.forward.backlog() + self.backward.backlog()
    }

    /// Whether the search has less left to do than `before`: fewer pairs to
    /// expand, or as many and fewer states to serve before the next one.
    pub open spec fn advanced(&self, before: &Searcher) -> bool {
        ||| self.unexplored() < before.unexplored()
        ||| self.unexplored() == before.unexplored() && self.backlog() < before.backlog()
    }

    /// A search of `graph` for a way from `hash_in` with `hash_var_in` to
    /// `hash_out` with `hash_var_out` that uses no edge of `skip_edges`.
    /// Nothing waits yet.
    pub fn new(
        hash_in: Int,
        hash_var_in: &'a Variations,
        hash_out: Int,
        hash_var_out: &'a Variations,
        graph: &'a Graph,
        skip_edges: &'a EdgeSet,
    ) -> (s: Searcher<'a>)
        requires
            graph.wf(),
        ensures
            s.inv(),
            s.closed(),
            s.graph() == *graph,
            s.query() == (Query {
                hash_in,
                hash_var_in: hash_var_in@,
                hash_out,
                hash_var_out: hash_var_out@,
                skip_edges: skip_edges@,
            }),
            s.forward().fresh(hash_var_in, *graph, true),
            s.backward().fresh(hash_var_out, *graph, false),
    {
        proof {
            graph.lemma_wf();
            lemma_tags_of(graph.edges());
        }
        let forward = Frontier::new(hash_var_in, graph, true);
        let backward = Frontier::new(hash_var_out, graph, false);
        Searcher {
            graph,
            hash_in,
            hash_out,
            hash_var_in,
            hash_var_out,
            skip_edges,
            forward,
            backward,
        }
    }

    /// How many forward states and how many backward states wait.
    pub fn waiting(&self) -> (n: (usize, usize))
        ensures
            n.0 == self.waiting_in(),
            n.1 == self.waiting_out(),
    {
        (self.forward.queue.len(), self.backward.queue.len())
    }

    /// Lets every edge wait, as a root of the forward search, that accepts the
    /// query's kind and finds its tags on the value at hand.
    pub fn set_queue_in(&mut self)
        requires
            old(self).inv(),
        ensures
            final(self).inv(),
            final(self).seeded(),
            old(self).closed() ==> final(self).closed(),
            final(self).graph() == old(self).graph(),
            final(self).query() == old(self).query(),
            final(self).backward() == old(self).backward(),
            extended(
                old(self).forward(),
                final(self).forward(),
                roots_in(
                    old(self).graph().edges(),
                    old(self).query().hash_var_in,
                    old(self).graph().outgoing(old(self).query().hash_in),
                ),
            ),
    {
        let graph = self.graph;
        let ghost edges = graph.edges();
        let ghost q = self.query();
        let ghost was_closed = self.closed();
        let ghost start = self.forward;
        proof {
            graph.lemma_wf();
        }
        let list = match graph.out_edges(self.hash_in) {
            Some(list) => list,
            None => {
                return ;
            },
        };
        let var_total = self.hash_var_in.len();
        let mut i: usize = 0;
        while i < list.len()
            invariant
                i <= list.len(),
                self.graph == graph,
                graph.edges() == edges,
                self.query() == q,
                self.inv(),
                was_closed ==> self.closed(),
                self.backward == old(self).backward,
                list@ == graph.outgoing(self.hash_in),
                var_total == self.hash_var_in@.len(),
                graph.wf(),
                extended(start, self.forward, roots_in(edges, q.hash_var_in, list@.take(i as int))),
                forall|k: int| 0 <= k < i ==> rooted(edges, q, self.forward, #[trigger] list@[k] as int),
            decreases list.len() - i,
        {
            proof {
                graph.lemma_wf();
            }
            let id = list[i];
            let edge = graph.edge(id);
            let ghost before = self.forward;
            assert(list@.take(i + 1).drop_last() == list@.take(i as int));
            if is_subset(&edge.hash_var_in, self.hash_var_in) {
                let h = weigh(var_total, 0, edge.hash_var_in.len(), 0);
                let tags = replace(self.hash_var_in, &edge.hash_var_in, &edge.hash_var_out);
                let state = State::new(score(0, edge.cost, h), id, edge.cost, None, tags);
                self.forward.push(state);
                proof {
                    lemma_forward_pushed(edges, q, before, self.forward);
                    lemma_scores_pushed(*graph, before, self.forward);
                    lemma_extended_push(
                        start,
                        before,
                        self.forward,
                        roots_in(edges, q.hash_var_in, list@.take(i as int)),
                    );
                }
            }
            i += 1;
        }
        proof {
            assert(list@.take(i as int) == list@);
        }
    }

    /// Lets every edge wait, as a root of the backward search, that returns
    /// the kind asked for. An edge that depends on tags waits too: an earlier
    /// step may hand them out.
    pub fn set_queue_out(&mut self)
        requires
            old(self).inv(),
        ensures
            final(self).inv(),
            old(self).seeded() ==> final(self).seeded(),
            old(self).closed() ==> final(self).closed(),
            final(self).graph() == old(self).graph(),
            final(self).query() == old(self).query(),
            final(self).forward() == old(self).forward(),
            extended(
                old(self).backward(),
                final(self).backward(),
                roots_out(
                    old(self).graph().edges(),
                    old(self).query().hash_var_out,
                    most_tags(
                        old(self).graph().edges(),
                        old(self).graph().incoming(old(self).query().hash_out),
                        true,
                    ),
                    old(self).graph().incoming(old(self).query().hash_out),
                ),
            ),
    {
        let graph = self.graph;
        let ghost edges = graph.edges();
        let ghost q = self.query();
        let ghost start = self.backward;
        proof {
            graph.lemma_wf();
        }
        let list = match graph.in_edges(self.hash_out) {
            Some(list) => list,
            None => {
                return ;
            },
        };
        let var_most = Self::most(graph, list, true);
        let var_wanted = self.hash_var_out.len();
        let mut i: usize = 0;
        while i < list.len()
            invariant
                i <= list.len(),
                self.graph == graph,
                graph.edges() == edges,
                graph.wf(),
                self.query() == q,
                self.inv(),
                self.forward == old(self).forward,
                list@ == graph.incoming(self.hash_out),
                var_most == most_tags(edges, list@, true),
                var_wanted == self.hash_var_out@.len(),
                extended(
                    start,
                    self.backward,
                    roots_out(edges, q.hash_var_out, var_most as nat, list@.take(i as int)),
                ),
            decreases list.len() - i,
        {
            proof {
                graph.lemma_wf();
            }
            let id = list[i];
            let edge = graph.edge(id);
            let ghost before = self.backward;
            let h = weigh(
                var_most,
                var_wanted,
                edge.hash_var_in.len(),
                shared(&edge.hash_var_out, self.hash_var_out),
            );
            let tags = replace(self.hash_var_out, &edge.hash_var_out, &edge.hash_var_in);
            let state = State::new(score(0, edge.cost, h), id, edge.cost, None, tags);
            self.backward.push(state);
            proof {
                lemma_backward_pushed(edges, q, before, self.backward);
                lemma_scores_pushed(*graph, before, self.backward);
                lemma_extended_push(
                    start,
                    before,
                    self.backward,
                    roots_out(edges, q.hash_var_out, var_most as nat, list@.take(i as int)),
                );
                assert(self.backward.states@.last()@ == root_out(
                    edges,
                    q.hash_var_out,
                    var_most as nat,
                    id as int,
                ));
                assert(list@.take(i + 1).drop_last() == list@.take(i as int));
            }
            i += 1;
        }
        assert(list@.take(i as int) == list@);
    }

    /// Looks for a plan that answers the query.
    ///
    /// Both searches are started. Then, while a state waits, the search with
    /// fewer waiting states takes a step: the backward one where both have as
    /// many, or where no forward state waits. The first plan that a step
    /// gives is returned. When no state waits any more, no plan answers the
    /// query.
    pub fn search(&mut self) -> (found: Option<Vec<Edge>>)
        requires
            old(self).inv(),
            old(self).closed(),
        ensures
            final(self).graph() == old(self).graph(),
            final(self).query() == old(self).query(),
            answers(old(self).graph()@, old(self).query(), plan_view(found)),
            searched_from(
                old(self).graph(),
                old(self).query(),
                (old(self).forward(), old(self).backward()),
                plan_view(found),
            ),
    {
        let ghost graph = *self.graph;
        let ghost q = self.query();
        self.set_queue_in();
        self.set_queue_out();
        let ghost mut run = seq![(self.forward, self.backward)];
        loop
            invariant
                self.inv(),
                self.closed(),
                self.seeded(),
                self.graph() == old(self).graph(),
                self.query() == old(self).query(),
                graph == *self.graph,
                q == self.query(),
                is_run(graph, q, run),
                begun(graph, q, (old(self).forward(), old(self).backward()), run.first()),
                run.last() == (self.forward, self.backward),
                forall|i: int|
                    0 <= i < run.len() - 1 ==> outcome(graph.edges(), q, (#[trigger] run[i]).0, run[i].1)
                        is None,
            ensures
                self.waiting_in() == 0,
                self.waiting_out() == 0,
            decreases self.unexplored(), self.backlog(),
        {
            let ahead = self.forward.queue.len();
            let behind = self.backward.queue.len();
            let ghost so_far = run;
            if ahead > 0 && (behind == 0 || ahead < behind) {
                let found = self.search_forward();
                proof {
                    run = so_far.push((self.forward, self.backward));
                    lemma_run_goes_on(graph, q, so_far, (self.forward, self.backward));
                }
                if let Some(path) = found {
                    return Some(path);
                }
            } else if behind > 0 {
                let found = self.search_backward();
                proof {
                    run = so_far.push((self.forward, self.backward));
                    lemma_run_goes_on(graph, q, so_far, (self.forward, self.backward));
                }
                if let Some(path) = found {
                    return Some(path);
                }
            } else {
                break ;
            }
        }
        proof {
            self.graph.lemma_wf();
            assert forall|path: Seq<EdgeView>| !valid(self.graph@, self.query(), path) by {
                lemma_exhausted(self.graph.edges(), self.query(), self.forward, path);
            }
        }
        None
    }

    /// One step of the forward search: serves the waiting forward state that
    /// comes first.
    ///
    /// A state on an excluded edge is dropped. A state that ends a plan gives
    /// the plan that leads to it. A state whose edge the backward search has
    /// expanded, asking for no more tags than the state entered the edge
    /// with, gives the plan that leads to its predecessor and on from there.
    /// Any other state is listed as expanded, and the steps that can follow
    /// it are let wait.
    pub fn search_forward(&mut self) -> (found: Option<Vec<Edge>>)
        requires
            old(self).inv(),
        ensures
            final(self).inv(),
            final(self).graph() == old(self).graph(),
            final(self).query() == old(self).query(),
            final(self).backward() == old(self).backward(),
            plan_view(found) == forward_outcome(
                old(self).graph().edges(),
                old(self).query(),
                old(self).forward(),
                old(self).backward(),
            ),
            forward_step(
                old(self).graph(),
                old(self).query(),
                old(self).forward(),
                old(self).backward(),
                final(self).forward(),
            ),
            match found {
                Some(path) => justified(old(self).graph()@, old(self).query(), views(path@)),
                None => {
                    &&& old(self).closed() ==> final(self).closed()
                    &&& old(self).seeded() ==> final(self).seeded()
                    &&& old(self).waiting_in() > 0 ==> final(self).advanced(old(self))
                },
            },
    {
        let graph = self.graph;
        let ghost edges = graph.edges();
        let ghost q = self.query();
        let ghost start = self.forward;
        proof {
            graph.lemma_wf();
        }
        let n = match self.forward.pop(graph) {
            Some(n) => n,
            None => {
                return None;
            },
        };
        let ghost at = start.next_up(edges);
        let ghost popped = self.forward;
        proof {
            lemma_forward_dropped(edges, q, start, popped, at);
            lemma_scores_kept(*graph, start, popped);
            assert(self.forward.node_wf(n as int));
        }
        let id = self.forward.states[n].edge;
        let edge = graph.edge(id);
        if self.skip_edges.contains(edge) {
            return None;
        }
        if edge.hash_out == self.hash_out && is_subset(
            self.hash_var_out,
            &self.forward.states[n].variations,
        ) {
            proof {
                lemma_forward_goal(edges, q, self.forward, n as int);
                assert(forward_path(edges, popped, n as int) + Seq::<EdgeView>::empty()
                    == forward_path(edges, start, n as int));
            }
            return Some(self.join(Some(n), None));
        }
        if let Some(path) = self.meet_in(n) {
            return Some(path);
        }
        self.forward.record(n);
        let ghost recorded = self.forward;
        proof {
            lemma_forward_served(edges, q, start, self.forward, n as int, at);
            lemma_scores_kept(*graph, start, self.forward);
        }
        self.add_queue_in(n);
        proof {
            lemma_expanded(start, popped, recorded, self.forward, at, forward_growth(*graph, start));
        }
        None
    }

    /// One step of the backward search: serves the waiting backward state
    /// that comes first.
    ///
    /// A state on an excluded edge is dropped. A state whose edge accepts the
    /// query's kind, and that asks for no tag the value at hand lacks, gives
    /// the plan that leads on from it. A state whose edge the forward search
    /// has expanded, entered with all the tags the state asks for, gives the
    /// plan that leads to that forward state's predecessor and on from here.
    /// Any other state is listed as expanded, and the steps that can come
    /// before it are let wait.
    pub fn search_backward(&mut self) -> (found: Option<Vec<Edge>>)
        requires
            old(self).inv(),
        ensures
            final(self).inv(),
            final(self).graph() == old(self).graph(),
            final(self).query() == old(self).query(),
            final(self).forward() == old(self).forward(),
            plan_view(found) == backward_outcome(
                old(self).graph().edges(),
                old(self).query(),
                old(self).forward(),
                old(self).backward(),
            ),
            backward_step(
                old(self).graph(),
                old(self).query(),
                old(self).forward(),
                old(self).backward(),
                final(self).backward(),
            ),
            old(self).closed() ==> final(self).closed(),
            old(self).seeded() ==> final(self).seeded(),
            match found {
                Some(path) => justified(old(self).graph()@, old(self).query(), views(path@)),
                None => old(self).waiting_out() > 0 ==> final(self).advanced(old(self)),
            },
    {
        let graph = self.graph;
        let ghost edges = graph.edges();
        let ghost q = self.query();
        let ghost start = self.backward;
        proof {
            graph.lemma_wf();
        }
        let n = match self.backward.pop(graph) {
            Some(n) => n,
            None => {
                return None;
            },
        };
        let ghost at = start.next_up(edges);
        let ghost popped = self.backward;
        proof {
            lemma_backward_served(edges, q, start, popped, n as int, at);
            lemma_scores_kept(*graph, start, popped);
            assert(self.backward.node_wf(n as int));
        }
        let id = self.backward.states[n].edge;
        let edge = graph.edge(id);
        if self.skip_edges.contains(edge) {
            return None;
        }
        if edge.hash_in == self.hash_in && is_subset(
            &self.backward.states[n].variations,
            self.hash_var_in,
        ) {
            proof {
                lemma_backward_goal(edges, q, self.backward, n as int);
                assert(Seq::<EdgeView>::empty() + backward_path(edges, popped, n as int)
                    == backward_path(edges, start, n as int));
            }
            return Some(self.join(None, Some(n)));
        }
        if let Some(path) = self.meet_out(n) {
            return Some(path);
        }
        self.backward.record(n);
        let ghost recorded = self.backward;
        proof {
            lemma_backward_served(edges, q, start, self.backward, n as int, at);
            lemma_scores_kept(*graph, start, self.backward);
        }
        self.add_queue_out(n);
        proof {
            lemma_expanded(
                start,
                popped,
                recorded,
                self.backward,
                at,
                backward_growth(*graph, start),
            );
        }
        None
    }

    /// Lets every step wait that can follow the forward state `n`: each edge
    /// that accepts the kind the state's edge returns and finds its tags on
    /// the state, unless that edge was expanded with these tags before.
    fn add_queue_in(&mut self, n: usize)
        requires
            old(self).inv(),
            n < old(self).forward.states@.len(),
            !old(self).query().skip_edges.contains(
                old(self).graph.edges()[old(self).forward.edge(n as int)],
            ),
        ensures
            final(self).inv(),
            final(self).graph == old(self).graph,
            final(self).query() == old(self).query(),
            final(self).backward == old(self).backward,
            closed_except(old(self).graph.edges(), old(self).query(), old(self).forward, n as int)
                ==> final(self).closed(),
            old(self).seeded() ==> final(self).seeded(),
            final(self).forward.unexplored() == old(self).forward.unexplored(),
            final(self).forward.backlog() <= old(self).forward.backlog() + old(self).forward.spread(
                n as int,
            ),
            extended(
                old(self).forward,
                final(self).forward,
                children_in(
                    old(self).graph.edges(),
                    old(self).forward.states@[n as int]@,
                    n as int,
                    old(self).forward.pairs(),
                    old(self).graph.outgoing(
                        old(self).graph.edges()[old(self).forward.edge(n as int)].hash_out,
                    ),
                ),
            ),
    {
        let graph = self.graph;
        let ghost edges = graph.edges();
        let ghost q = self.query();
        let ghost start = self.forward;
        proof {
            graph.lemma_wf();
            assert(self.forward.node_wf(n as int));
        }
        let at = self.forward.states[n].edge;
        let ghost origin = start.states@[n as int]@;
        let ghost seen = start.pairs();
        let list = match graph.out_edges(graph.edge(at).hash_out) {
            Some(list) => list,
            None => {
                proof {
                    lemma_all_followed(
                        edges,
                        q,
                        graph,
                        self.forward,
                        n as int,
                        graph.outgoing(edges[at as int].hash_out),
                    );
                }
                return ;
            },
        };
        let var_total = self.forward.states[n].variations.len();
        let mut i: usize = 0;
        while i < list.len()
            invariant
                i <= list.len(),
                self.graph == graph,
                graph.wf(),
                graph.edges() == edges,
                self.query() == q,
                self.inv(),
                self.backward == old(self).backward,
                list@ == graph.outgoing(edges[at as int].hash_out),
                origin == start.states@[n as int]@,
                seen == start.pairs(),
                self.forward.pairs() == seen,
                extended(
                    start,
                    self.forward,
                    children_in(edges, origin, n as int, seen, list@.take(i as int)),
                ),
                n < start.states@.len() <= self.forward.states@.len(),
                self.forward.states@[n as int] == start.states@[n as int],
                at == start.edge(n as int),
                self.forward.visited == start.visited,
                self.forward.seed == start.seed,
                !q.skip_edges.contains(edges[at as int]),
                var_total == start.tags(n as int).len(),
                closed_except(edges, q, start, n as int) ==> closed_except(
                    edges,
                    q,
                    self.forward,
                    n as int,
                ),
                seeded(edges, q, start) ==> seeded(edges, q, self.forward),
                forall|k: int|
                    0 <= k < i ==> closed_at(edges, q, self.forward, n as int, #[trigger] list@[k] as int),
                self.forward.unexplored() == start.unexplored(),
                self.forward.backlog() <= start.backlog() + i,
            decreases list.len() - i,
        {
            proof {
                graph.lemma_wf();
                assert(self.forward.node_wf(n as int));
            }
            let id = list[i];
            let edge = graph.edge(id);
            let ghost before = self.forward;
            let tags_here = &self.forward.states[n].variations;
            assert(list@.take(i + 1).drop_last() == list@.take(i as int));
            if !self.forward.seen(id, tags_here) && is_subset(&edge.hash_var_in, tags_here) {
                let h = weigh(var_total, 0, edge.hash_var_in.len(), 0);
                let tags = replace(tags_here, &edge.hash_var_in, &edge.hash_var_out);
                let parent = &self.forward.states[n];
                let state = State::new(
                    score(parent.cost, edge.cost, h),
                    id,
                    edge.cost,
                    Some((n, parent.actual_cost)),
                    tags,
                );
                self.forward.push(state);
                proof {
                    lemma_forward_pushed(edges, q, before, self.forward);
                    lemma_grown(before, self.forward);
                    lemma_scores_pushed(*graph, before, self.forward);
                    lemma_extended_push(
                        start,
                        before,
                        self.forward,
                        children_in(edges, origin, n as int, seen, list@.take(i as int)),
                    );
                }
            }
            i += 1;
        }
        proof {
            assert(list@.take(i as int) == list@);
        }
    }

    /// Lets every step wait that can come before the backward state `n`: each
    /// edge that returns the kind the state's edge accepts, unless that edge
    /// was expanded with these tags before. Whether an edge finds its tags is
    /// not asked: a step further back may hand them out.
    fn add_queue_out(&mut self, n: usize)
        requires
            old(self).inv(),
            n < old(self).backward.states@.len(),
            !old(self).query().skip_edges.contains(
                old(self).graph.edges()[old(self).backward.edge(n as int)],
            ),
        ensures
            final(self).inv(),
            final(self).graph == old(self).graph,
            final(self).query() == old(self).query(),
            final(self).forward == old(self).forward,
            final(self).backward.unexplored() == old(self).backward.unexplored(),
            final(self).backward.backlog() <= old(self).backward.backlog()
                + old(self).backward.spread(n as int),
            extended(
                old(self).backward,
                final(self).backward,
                children_out(
                    old(self).graph.edges(),
                    old(self).backward.states@[n as int]@,
                    n as int,
                    most_tags(
                        old(self).graph.edges(),
                        old(self).graph.incoming(
                            old(self).graph.edges()[old(self).backward.edge(n as int)].hash_in,
                        ),
                        false,
                    ),
                    old(self).backward.pairs(),
                    old(self).graph.incoming(
                        old(self).graph.edges()[old(self).backward.edge(n as int)].hash_in,
                    ),
                ),
            ),
    {
        let graph = self.graph;
        let ghost edges = graph.edges();
        let ghost q = self.query();
        let ghost start = self.backward;
        proof {
            graph.lemma_wf();
            assert(self.backward.node_wf(n as int));
        }
        let at = self.backward.states[n].edge;
        let ghost origin = start.states@[n as int]@;
        let ghost seen = start.pairs();
        let list = match graph.in_edges(graph.edge(at).hash_in) {
            Some(list) => list,
            None => {
                return ;
            },
        };
        let var_total = Self::most(graph, list, false);
        let mut i: usize = 0;
        while i < list.len()
            invariant
                i <= list.len(),
                self.graph == graph,
                graph.wf(),
                graph.edges() == edges,
                self.query() == q,
                self.inv(),
                self.forward == old(self).forward,
                list@ == graph.incoming(edges[at as int].hash_in),
                origin == start.states@[n as int]@,
                seen == start.pairs(),
                self.backward.pairs() == seen,
                extended(
                    start,
                    self.backward,
                    children_out(
                        edges,
                        origin,
                        n as int,
                        var_total as nat,
                        seen,
                        list@.take(i as int),
                    ),
                ),
                n < start.states@.len() <= self.backward.states@.len(),
                self.backward.states@[n as int] == start.states@[n as int],
                at == start.edge(n as int),
                !q.skip_edges.contains(edges[at as int]),
                var_total == most_tags(edges, list@, false),
                self.backward.unexplored() == start.unexplored(),
                self.backward.backlog() <= start.backlog() + i,
            decreases list.len() - i,
        {
            proof {
                graph.lemma_wf();
                assert(self.backward.node_wf(n as int));
            }
            let id = list[i];
            let edge = graph.edge(id);
            let ghost before = self.backward;
            let tags_here = &self.backward.states[n].variations;
            assert(list@.take(i + 1).drop_last() == list@.take(i as int));
            if !self.backward.seen(id, tags_here) {
                let h = weigh(
                    var_total,
                    0,
                    shared(&edge.hash_var_out, tags_here),
                    edge.hash_var_in.len(),
                );
                let tags = replace(tags_here, &edge.hash_var_out, &edge.hash_var_in);
                let parent = &self.backward.states[n];
                let state = State::new(
                    score(parent.cost, edge.cost, h),
                    id,
                    edge.cost,
                    Some((n, parent.actual_cost)),
                    tags,
                );
                self.backward.push(state);
                proof {
                    lemma_backward_pushed(edges, q, before, self.backward);
                    lemma_grown(before, self.backward);
                    lemma_scores_pushed(*graph, before, self.backward);
                    lemma_extended_push(
                        start,
                        before,
                        self.backward,
                        children_out(
                            edges,
                            origin,
                            n as int,
                            var_total as nat,
                            seen,
                            list@.take(i as int),
                        ),
                    );
                    assert(self.backward.states@.last()@ == child_out(
                        edges,
                        origin,
                        n as int,
                        var_total as nat,
                        id as int,
                    ));
                }
            }
            i += 1;
        }
        assert(list@.take(i as int) == list@);
    }

    /// The plan through the forward state `n` and a backward state that was
    /// expanded on the same edge and asks for no more tags than `n` entered the
    /// edge with, if there is such a state.
    fn meet_in(&self, n: usize) -> (found: Option<Vec<Edge>>)
        requires
            self.inv(),
            n < self.forward.states@.len(),
            !self.query().skip_edges.contains(self.graph.edges()[self.forward.edge(n as int)]),
        ensures
            found matches Some(path) ==> justified(self.graph@, self.query(), views(path@)),
            match counterpart_in(
                self.backward,
                self.forward.key(n as int),
                self.backward.listing(self.forward.edge(n as int)),
            ) {
                Some(c) => found matches Some(path) && views(path@) == approach(
                    self.graph.edges(),
                    self.forward,
                    n as int,
                ) + backward_path(self.graph.edges(), self.backward, c),
                None => found is None,
            },
    {
        let ghost edges = self.graph.edges();
        let ghost q = self.query();
        proof {
            assert(self.forward.node_wf(n as int));
        }
        let id = self.forward.states[n].edge;
        let list = &self.backward.visited[id];
        let key = self.forward.key_of(n);
        let mut k: usize = 0;
        assert(list@.skip(0) == list@);
        while k < list.len()
            invariant
                self.inv(),
                edges == self.graph.edges(),
                q == self.query(),
                !q.skip_edges.contains(edges[id as int]),
                n < self.forward.states@.len(),
                id == self.forward.edge(n as int),
                id < self.backward.visited@.len(),
                list == self.backward.visited@[id as int],
                key@ == self.forward.key(n as int),
                k <= list@.len(),
                counterpart_in(self.backward, key@, list@) == counterpart_in(
                    self.backward,
                    key@,
                    list@.skip(k as int),
                ),
            decreases list.len() - k,
        {
            assert(self.backward.entry_wf(id as int, k as int));
            assert(list@.skip(k as int).drop_first() == list@.skip(k + 1));
            let c = list[k];
            if is_subset(&self.backward.states[c].variations, key) {
                proof {
                    self.graph.lemma_wf();
                    assert(self.forward.node_wf(n as int));
                    lemma_meeting(edges, q, self.forward, self.backward, n as int, c as int);
                }
                return Some(self.join(self.forward.states[n].parent, Some(c)));
            }
            k += 1;
        }
        None
    }

    /// The plan through the backward state `n` and a forward state that was
    /// expanded on the same edge, entered with all the tags that `n` asks for,
    /// if there is such a state.
    fn meet_out(&self, n: usize) -> (found: Option<Vec<Edge>>)
        requires
            self.inv(),
            n < self.backward.states@.len(),
            !self.query().skip_edges.contains(self.graph.edges()[self.backward.edge(n as int)]),
        ensures
            found matches Some(path) ==> justified(self.graph@, self.query(), views(path@)),
            match counterpart_out(
                self.forward,
                self.backward.tags(n as int),
                self.forward.listing(self.backward.edge(n as int)),
            ) {
                Some(c) => found matches Some(path) && views(path@) == approach(
                    self.graph.edges(),
                    self.forward,
                    c,
                ) + backward_path(self.graph.edges(), self.backward, n as int),
                None => found is None,
            },
    {
        let ghost edges = self.graph.edges();
        let ghost q = self.query();
        proof {
            assert(self.backward.node_wf(n as int));
        }
        let id = self.backward.states[n].edge;
        let list = &self.forward.visited[id];
        let tags = &self.backward.states[n].variations;
        let mut k: usize = 0;
        assert(list@.skip(0) == list@);
        while k < list.len()
            invariant
                self.inv(),
                edges == self.graph.edges(),
                q == self.query(),
                !q.skip_edges.contains(edges[id as int]),
                n < self.backward.states@.len(),
                id == self.backward.edge(n as int),
                id < self.forward.visited@.len(),
                list == self.forward.visited@[id as int],
                tags@ == self.backward.tags(n as int),
                k <= list@.len(),
                counterpart_out(self.forward, tags@, list@) == counterpart_out(
                    self.forward,
                    tags@,
                    list@.skip(k as int),
                ),
            decreases list.len() - k,
        {
            assert(self.forward.entry_wf(id as int, k as int));
            assert(list@.skip(k as int).drop_first() == list@.skip(k + 1));
            let c = list[k];
            if is_subset(tags, self.forward.key_of(c)) {
                proof {
                    self.graph.lemma_wf();
                    assert(self.forward.node_wf(c as int));
                    lemma_meeting(edges, q, self.forward, self.backward, c as int, n as int);
                }
                return Some(self.join(self.forward.states[c].parent, Some(n)));
            }
            k += 1;
        }
        None
    }

    /// The plan that leads to the forward state `ahead`, if one is given, and
    /// on from the backward state `behind`, if one is given.
    fn join(&self, ahead: Option<usize>, behind: Option<usize>) -> (path: Vec<Edge>)
        requires
            self.inv(),
            ahead matches Some(n) ==> n < self.forward.states@.len(),
            behind matches Some(n) ==> n < self.backward.states@.len(),
        ensures
            views(path@) == match ahead {
                Some(n) => forward_path(self.graph.edges(), self.forward, n as int),
                None => Seq::empty(),
            } + match behind {
                Some(n) => backward_path(self.graph.edges(), self.backward, n as int),
                None => Seq::empty(),
            },
    {
        let back = match ahead {
            Some(n) => self.forward.lineage(n),
            None => Vec::new(),
        };
        let forth = match behind {
            Some(n) => self.backward.lineage(n),
            None => Vec::new(),
        };
        proof {
            if let Some(n) = ahead {
                lemma_up_bounded(self.forward, n as int);
            }
            if let Some(n) = behind {
                lemma_up_bounded(self.backward, n as int);
            }
        }
        Self::collect(self.graph, &back, &forth)
    }

    /// The edges with the indices of `back`, last first, and then those with
    /// the indices of `forth`.
    fn collect(graph: &Graph, back: &Vec<usize>, forth: &Vec<usize>) -> (path: Vec<Edge>)
        requires
            forall|k: int| 0 <= k < back@.len() ==> (#[trigger] back@[k]) < graph.edges().len(),
            forall|k: int| 0 <= k < forth@.len() ==> (#[trigger] forth@[k]) < graph.edges().len(),
        ensures
            views(path@) == trail(graph.edges(), back@.reverse()) + trail(graph.edges(), forth@),
    {
        let ghost first = trail(graph.edges(), back@.reverse());
        let ghost second = trail(graph.edges(), forth@);
        let mut path: Vec<Edge> = Vec::new();
        let mut i: usize = 0;
        while i < back.len()
            invariant
                i <= back.len(),
                forall|k: int| 0 <= k < back@.len() ==> (#[trigger] back@[k]) < graph.edges().len(),
                first == trail(graph.edges(), back@.reverse()),
                views(path@) == first.take(i as int),
            decreases back.len() - i,
        {
            let edge = graph.edge(back[back.len() - 1 - i]).duplicate();
            proof {
                assert(first.take(i + 1) == first.take(i as int).push(edge@));
            }
            path.push(edge);
            i += 1;
        }
        let mut j: usize = 0;
        while j < forth.len()
            invariant
                j <= forth.len(),
                forall|k: int|
                    0 <= k < forth@.len() ==> (#[trigger] forth@[k]) < graph.edges().len(),
                second == trail(graph.edges(), forth@),
                views(path@) == first + second.take(j as int),
            decreases forth.len() - j,
        {
            let edge = graph.edge(forth[j]).duplicate();
            proof {
                assert(views(path@.push(edge)) == views(path@).push(edge@));
            }
            path.push(edge);
            j += 1;
        }
        path
    }

    /// The most tags that any edge of `list` depends on (`accepted`) or hands
    /// out.
    fn most(graph: &Graph, list: &Vec<usize>, accepted: bool) -> (m: usize)
        requires
            forall|k: int| 0 <= k < list@.len() ==> (#[trigger] list@[k]) < graph.edges().len(),
        ensures
            m == most_tags(graph.edges(), list@, accepted),
    {
        let mut m: usize = 0;
        let mut k: usize = 0;
        while k < list.len()
            invariant
                k <= list.len(),
                forall|k: int| 0 <= k < list@.len() ==> (#[trigger] list@[k]) < graph.edges().len(),
                m == most_tags(graph.edges(), list@.take(k as int), accepted),
            decreases list.len() - k,
        {
            let edge = graph.edge(list[k]);
            let count = if accepted {
                edge.hash_var_in.len()
            } else {
                edge.hash_var_out.len()
            };
            proof {
                broadcast use vstd::std_specs::btree::group_btree_axioms;

                assert(list@.take(k + 1).drop_last() == list@.take(k as int));
            }
            if count > m {
                m = count;
            }
            k += 1;
        }
        assert(list@.take(k as int) == list@);
        m
    }
}

/// The edges on the way up from a state are edges of the graph.
pub proof fn lemma_up_bounded(f: Frontier, n: int)
    requires
        f.wf(),
        0 <= n < f.states@.len(),
    ensures
        forall|k: int| 0 <= k < f.up(n).len() ==> (#[trigger] f.up(n)[k]) < f.visited@.len(),
    decreases n,
{
    assert(f.node_wf(n));
    match f.states@[n].parent {
        Some(p) => {
            lemma_up_bounded(f, p as int);
            assert forall|k: int| 0 <= k < f.up(n).len() implies (#[trigger] f.up(n)[k])
                < f.visited@.len() by {
                if k > 0 {
                    assert(f.up(n)[k] == f.up(p as int)[k - 1]);
                }
            }
        },
        None => {},
    }
}

/// Once every edge that accepts what the edge of the state `n` returns has
/// been looked at, every step that can follow an expanded state is expanded
/// or waits, if that held but for `n`.
proof fn lemma_all_followed(
    edges: Seq<EdgeView>,
    q: Query,
    graph: &Graph,
    f: Frontier,
    n: int,
    list: Seq<usize>,
)
    requires
        graph.wf(),
        graph.edges() == edges,
        f.wf(),
        f.visited@.len() == edges.len(),
        0 <= n < f.states@.len(),
        list == graph.outgoing(edges[f.edge(n)].hash_out),
        forall|k: int| 0 <= k < list.len() ==> closed_at(edges, q, f, n, #[trigger] list[k] as int),
    ensures
        closed_except(edges, q, f, n) ==> closed(edges, q, f),
{
    graph.lemma_wf();
}

impl Graph {
    /// Finds a chain of edges that carries a value of the kind `hash_in`, with
    /// the tags `hash_var_in`, to the kind `hash_out` with the tags
    /// `hash_var_out`, and uses no edge of `skip_edges`.
    ///
    /// A plan that is returned leads from `hash_in` to `hash_out` over edges
    /// of the graph that are not excluded, and is justified: up to some step
    /// every edge finds its tags, and from there on the plan was found from
    /// the far end, by the tags its edges ask for. Nothing is returned only if
    /// no plan answers the query. The plan is found with scores that prefer
    /// cheap edges; it need not be the cheapest.
    pub fn search(
        &self,
        hash_in: Int,
        hash_var_in: &Variations,
        hash_out: Int,
        hash_var_out: &Variations,
        skip_edges: &EdgeSet,
    ) -> (found: Option<Vec<Edge>>)
        requires
            self.wf(),
        ensures
            answers(
                self@,
                Query {
                    hash_in,
                    hash_var_in: hash_var_in@,
                    hash_out,
                    hash_var_out: hash_var_out@,
                    skip_edges: skip_edges@,
                },
                plan_view(found),
            ),
            searched(
                *self,
                Query {
                    hash_in,
                    hash_var_in: hash_var_in@,
                    hash_out,
                    hash_var_out: hash_var_out@,
                    skip_edges: skip_edges@,
                },
                hash_var_in,
                hash_var_out,
                plan_view(found),
            ),
    {
        let mut searcher = Searcher::new(
            hash_in,
            hash_var_in,
            hash_out,
            hash_var_out,
            self,
            skip_edges,
        );
        searcher.search()
    }
}

} // verus!
