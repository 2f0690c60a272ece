//! What a search does, step by step: which states it makes, which state it
//! serves, what a step gives, and what a whole run gives.
//!
//! Everything here is ghost code. The functions of the searcher are held to
//! these definitions by their contracts.
use crate::edge::EdgeView;
use crate::frontier::{expanded, extended, taken, Frontier};
use crate::graph::{most_tags, Graph};
use crate::plan::{after, before, Query};
use crate::state::{clip, heuristic, scored, StateView};
use crate::variations::{Int, Variations};
use vstd::prelude::*;

verus! {

/// The edges with the indices `ids`, in that order.
pub open spec fn trail(edges: Seq<EdgeView>, ids: Seq<usize>) -> Seq<EdgeView> {
    ids.map_values(|i: usize| edges[i as int])
}

/// The edges from a root to the forward state `n`, in the order in which a
/// value takes them.
pub open spec fn forward_path(edges: Seq<EdgeView>, f: Frontier, n: int) -> Seq<EdgeView> {
    trail(edges, f.up(n).reverse())
}

/// The edges from the backward state `n` to its root, in the order in which
/// a value takes them.
pub open spec fn backward_path(edges: Seq<EdgeView>, f: Frontier, n: int) -> Seq<EdgeView> {
    trail(edges, f.up(n))
}

/// The forward path to the predecessor of the state `n`; empty for a root.
pub open spec fn approach(edges: Seq<EdgeView>, f: Frontier, n: int) -> Seq<EdgeView> {
    match f.states@[n].parent {
        Some(p) => forward_path(edges, f, p as int),
        None => Seq::empty(),
    }
}

/// Whether the forward state `n` ends a plan: its edge returns the kind asked
/// for and its tags hold those asked for.
pub open spec fn is_goal(edges: Seq<EdgeView>, q: Query, f: Frontier, n: int) -> bool {
    edges[f.edge(n)].hash_out == q.hash_out && q.hash_var_out.subset_of(f.tags(n))
}

/// Whether the backward state `n` starts a plan: its edge accepts the
/// query's kind and the value at hand carries all the tags it asks for.
pub open spec fn is_start(edges: Seq<EdgeView>, q: Query, b: Frontier, n: int) -> bool {
    edges[b.edge(n)].hash_in == q.hash_in && b.tags(n).subset_of(q.hash_var_in)
}

/// The root that the forward search makes for the edge `id`, for a value
/// with the tags `have`.
pub open spec fn root_in(edges: Seq<EdgeView>, have: Set<Int>, id: int) -> StateView {
    let e = edges[id];
    StateView {
        cost: scored(0, e.cost, heuristic(have.len() as int, e.hash_var_in.len() as int)),
        actual_cost: e.cost,
        edge: id,
        parent: None,
        variations: after(have, e),
    }
}

/// The roots of the forward search: one for each edge of `list` that finds
/// the tags it depends on in `have`, in the order of `list`.
pub open spec fn roots_in(edges: Seq<EdgeView>, have: Set<Int>, list: Seq<usize>) -> Seq<StateView>
    decreases list.len(),
{
    if list.len() == 0 {
        Seq::empty()
    } else {
        let rest = roots_in(edges, have, list.drop_last());
        if edges[list.last() as int].hash_var_in.subset_of(have) {
            rest.push(root_in(edges, have, list.last() as int))
        } else {
            rest
        }
    }
}

/// The root that the backward search makes for the edge `id`, when the tags
/// `want` are asked for and `most` is the most tags that any edge of the same
/// start depends on.
pub open spec fn root_out(edges: Seq<EdgeView>, want: Set<Int>, most: nat, id: int) -> StateView {
    let e = edges[id];
    StateView {
        cost: scored(
            0,
            e.cost,
            heuristic(
                (most + want.len()) as int,
                (e.hash_var_out.intersect(want).len() + e.hash_var_in.len()) as int,
            ),
        ),
        actual_cost: e.cost,
        edge: id,
        parent: None,
        variations: before(want, e),
    }
}

/// The roots of the backward search: one for each edge of `list`, in the
/// order of `list`.
pub open spec fn roots_out(edges: Seq<EdgeView>, want: Set<Int>, most: nat, list: Seq<usize>) -> Seq<
    StateView,
>
    decreases list.len(),
{
    if list.len() == 0 {
        Seq::empty()
    } else {
        roots_out(edges, want, most, list.drop_last()).push(
            root_out(edges, want, most, list.last() as int),
        )
    }
}

/// The state that the forward search makes for the edge `id` taken after the
/// state `n`, which is `parent`.
pub open spec fn child_in(edges: Seq<EdgeView>, parent: StateView, n: int, id: int) -> StateView {
    let e = edges[id];
    StateView {
        cost: scored(
            parent.cost,
            e.cost,
            heuristic(parent.variations.len() as int, e.hash_var_in.len() as int),
        ),
        actual_cost: clip(parent.actual_cost + e.cost),
        edge: id,
        parent: Some(n),
        variations: after(parent.variations, e),
    }
}

/// The states that the forward search makes when it expands the state `n`:
/// one for each edge of `list` that finds its tags on the state, unless the
/// edge was expanded before when entered with the state's tags (`seen`).
pub open spec fn children_in(
    edges: Seq<EdgeView>,
    parent: StateView,
    n: int,
    seen: Set<(int, Set<Int>)>,
    list: Seq<usize>,
) -> Seq<StateView>
    decreases list.len(),
{
    if list.len() == 0 {
        Seq::empty()
    } else {
        let rest = children_in(edges, parent, n, seen, list.drop_last());
        let id = list.last() as int;
        if !seen.contains((id, parent.variations)) && edges[id].hash_var_in.subset_of(
            parent.variations,
        ) {
            rest.push(child_in(edges, parent, n, id))
        } else {
            rest
        }
    }
}

/// The state that the backward search makes for the edge `id` taken before
/// the state `n`, which is `parent`; `most` is the most tags that any edge
/// which could be taken there hands out.
pub open spec fn child_out(
    edges: Seq<EdgeView>,
    parent: StateView,
    n: int,
    most: nat,
    id: int,
) -> StateView {
    let e = edges[id];
    StateView {
        cost: scored(
            parent.cost,
            e.cost,
            heuristic(
                most as int,
                (e.hash_var_out.intersect(parent.variations).len() + e.hash_var_in.len()) as int,
            ),
        ),
        actual_cost: clip(parent.actual_cost + e.cost),
        edge: id,
        parent: Some(n),
        variations: before(parent.variations, e),
    }
}

/// The states that the backward search makes when it expands the state `n`:
/// one for each edge of `list`, unless the edge was expanded before when
/// entered with the state's tags (`seen`).
pub open spec fn children_out(
    edges: Seq<EdgeView>,
    parent: StateView,
    n: int,
    most: nat,
    seen: Set<(int, Set<Int>)>,
    list: Seq<usize>,
) -> Seq<StateView>
    decreases list.len(),
{
    if list.len() == 0 {
        Seq::empty()
    } else {
        let rest = children_out(edges, parent, n, most, seen, list.drop_last());
        let id = list.last() as int;
        if !seen.contains((id, parent.variations)) {
            rest.push(child_out(edges, parent, n, most, id))
        } else {
            rest
        }
    }
}

/// The first backward state of `list` that asks for no tag outside `key`.
pub open spec fn counterpart_in(b: Frontier, key: Set<Int>, list: Seq<usize>) -> Option<int>
    decreases list.len(),
{
    if list.len() == 0 {
        None
    } else if b.tags(list.first() as int).subset_of(key) {
        Some(list.first() as int)
    } else {
        counterpart_in(b, key, list.drop_first())
    }
}

/// The first forward state of `list` that entered its edge with all of
/// `tags`.
pub open spec fn counterpart_out(f: Frontier, tags: Set<Int>, list: Seq<usize>) -> Option<int>
    decreases list.len(),
{
    if list.len() == 0 {
        None
    } else if tags.subset_of(f.key(list.first() as int)) {
        Some(list.first() as int)
    } else {
        counterpart_out(f, tags, list.drop_first())
    }
}

/// What a step of the forward search gives: nothing if no state waits or the
/// state served is on an excluded edge; the plan that leads to the state if
/// it ends a plan; else the plan through the first backward state expanded
/// on the same edge that asks for no more tags than the state entered the
/// edge with, if there is one.
pub open spec fn forward_outcome(
    edges: Seq<EdgeView>,
    q: Query,
    f: Frontier,
    b: Frontier,
) -> Option<Seq<EdgeView>> {
    if f.queue@.len() == 0 {
        None
    } else {
        let n = f.queue@[f.next_up(edges)] as int;
        if q.skip_edges.contains(edges[f.edge(n)]) {
            None
        } else if is_goal(edges, q, f, n) {
            Some(forward_path(edges, f, n))
        } else {
            match counterpart_in(b, f.key(n), b.listing(f.edge(n))) {
                Some(c) => Some(approach(edges, f, n) + backward_path(edges, b, c)),
                None => None,
            }
        }
    }
}

/// Whether a step of the forward search expands the state it serves: a state
/// waits, and the one served is not on an excluded edge and gives no plan.
pub open spec fn forward_expands(edges: Seq<EdgeView>, q: Query, f: Frontier, b: Frontier) -> bool {
    &&& f.queue@.len() > 0
    &&& !q.skip_edges.contains(edges[f.edge(f.queue@[f.next_up(edges)] as int)])
    &&& forward_outcome(edges, q, f, b) is None
}

/// What a step of the backward search gives: nothing if no state waits or
/// the state served is on an excluded edge; the plan that leads on from the
/// state if it starts a plan; else the plan through the first forward state
/// expanded on the same edge that entered the edge with all the tags the
/// state asks for, if there is one.
pub open spec fn backward_outcome(
    edges: Seq<EdgeView>,
    q: Query,
    f: Frontier,
    b: Frontier,
) -> Option<Seq<EdgeView>> {
    if b.queue@.len() == 0 {
        None
    } else {
        let n = b.queue@[b.next_up(edges)] as int;
        if q.skip_edges.contains(edges[b.edge(n)]) {
            None
        } else if is_start(edges, q, b, n) {
            Some(backward_path(edges, b, n))
        } else {
            match counterpart_out(f, b.tags(n), f.listing(b.edge(n))) {
                Some(c) => Some(approach(edges, f, c) + backward_path(edges, b, n)),
                None => None,
            }
        }
    }
}

/// Whether a step of the backward search expands the state it serves.
pub open spec fn backward_expands(edges: Seq<EdgeView>, q: Query, f: Frontier, b: Frontier) -> bool {
    &&& b.queue@.len() > 0
    &&& !q.skip_edges.contains(edges[b.edge(b.queue@[b.next_up(edges)] as int)])
    &&& backward_outcome(edges, q, f, b) is None
}

/// The states that a step of the forward search adds when it expands the
/// state it serves.
pub open spec fn forward_growth(graph: Graph, f: Frontier) -> Seq<StateView> {
    let edges = graph.edges();
    let n = f.queue@[f.next_up(edges)] as int;
    children_in(
        edges,
        f.states@[n]@,
        n,
        f.pairs().insert(f.pair(n)),
        graph.outgoing(edges[f.edge(n)].hash_out),
    )
}

/// The states that a step of the backward search adds when it expands the
/// state it serves.
pub open spec fn backward_growth(graph: Graph, b: Frontier) -> Seq<StateView> {
    let edges = graph.edges();
    let n = b.queue@[b.next_up(edges)] as int;
    let list = graph.incoming(edges[b.edge(n)].hash_in);
    children_out(
        edges,
        b.states@[n]@,
        n,
        most_tags(edges, list, false),
        b.pairs().insert(b.pair(n)),
        list,
    )
}

/// How a step of the forward search changes the forward frontier `f` into
/// `new`, with the backward frontier `b`.
pub open spec fn forward_step(graph: Graph, q: Query, f: Frontier, b: Frontier, new: Frontier) -> bool {
    if f.queue@.len() == 0 {
        new == f
    } else if forward_expands(graph.edges(), q, f, b) {
        expanded(f, new, f.next_up(graph.edges()), forward_growth(graph, f))
    } else {
        taken(f, new, f.next_up(graph.edges()))
    }
}

/// How a step of the backward search changes the backward frontier `b` into
/// `new`, with the forward frontier `f`.
pub open spec fn backward_step(graph: Graph, q: Query, f: Frontier, b: Frontier, new: Frontier) -> bool {
    if b.queue@.len() == 0 {
        new == b
    } else if backward_expands(graph.edges(), q, f, b) {
        expanded(b, new, b.next_up(graph.edges()), backward_growth(graph, b))
    } else {
        taken(b, new, b.next_up(graph.edges()))
    }
}

/// Whether the forward search takes the next step: a forward state waits,
/// and either no backward state waits or fewer forward states wait than
/// backward ones.
pub open spec fn forward_turn(f: Frontier, b: Frontier) -> bool {
    f.queue@.len() > 0 && (b.queue@.len() == 0 || f.queue@.len() < b.queue@.len())
}

/// What the next step of a search with the frontiers `f` and `b` gives.
pub open spec fn outcome(edges: Seq<EdgeView>, q: Query, f: Frontier, b: Frontier) -> Option<
    Seq<EdgeView>,
> {
    if forward_turn(f, b) {
        forward_outcome(edges, q, f, b)
    } else {
        backward_outcome(edges, q, f, b)
    }
}

/// One step of the search leads from the frontiers `from` to the frontiers
/// `to`.
pub open spec fn stepped(
    graph: Graph,
    q: Query,
    from: (Frontier, Frontier),
    to: (Frontier, Frontier),
) -> bool {
    if forward_turn(from.0, from.1) {
        forward_step(graph, q, from.0, from.1, to.0) && to.1 == from.1
    } else {
        backward_step(graph, q, from.0, from.1, to.1) && to.0 == from.0
    }
}

/// The frontiers `at` are the frontiers `from` after both searches were
/// started: the roots of both directions were made and let wait.
pub open spec fn begun(
    graph: Graph,
    q: Query,
    from: (Frontier, Frontier),
    at: (Frontier, Frontier),
) -> bool {
    let edges = graph.edges();
    &&& extended(from.0, at.0, roots_in(edges, q.hash_var_in, graph.outgoing(q.hash_in)))
    &&& extended(
        from.1,
        at.1,
        roots_out(
            edges,
            q.hash_var_out,
            most_tags(edges, graph.incoming(q.hash_out), true),
            graph.incoming(q.hash_out),
        ),
    )
}

/// `run` holds the frontiers of a search step by step: at each point but the
/// last a state waits and a step leads to the next point, and only the last
/// of these steps can give a plan.
pub open spec fn is_run(graph: Graph, q: Query, run: Seq<(Frontier, Frontier)>) -> bool {
    &&& run.len() > 0
    &&& forall|i: int|
        0 <= i < run.len() - 1 ==> {
            &&& (#[trigger] run[i]).0.queue@.len() + run[i].1.queue@.len() > 0
            &&& stepped(graph, q, run[i], run[i + 1])
        }
    &&& forall|i: int|
        0 <= i < run.len() - 2 ==> outcome(graph.edges(), q, (#[trigger] run[i]).0, run[i].1)
            is None
}

/// What a run gives: the plan that its last step gives, or nothing where the
/// run ends because no state waits.
pub open spec fn result(graph: Graph, q: Query, run: Seq<(Frontier, Frontier)>) -> Option<
    Seq<EdgeView>,
> {
    if run.len() >= 2 {
        outcome(graph.edges(), q, run[run.len() - 2].0, run[run.len() - 2].1)
    } else {
        None
    }
}

/// `found` is what a search with the frontiers `from` gives: there is a
/// run, from where both searches were started, that gives `found`, and if
/// that is nothing, no state waits at the end of the run.
pub open spec fn searched_from(
    graph: Graph,
    q: Query,
    from: (Frontier, Frontier),
    found: Option<Seq<EdgeView>>,
) -> bool {
    exists|run: Seq<(Frontier, Frontier)>|
        {
            &&& #[trigger] is_run(graph, q, run)
            &&& begun(graph, q, from, run.first())
            &&& found == result(graph, q, run)
            &&& found is None ==> run.last().0.queue@.len() + run.last().1.queue@.len() == 0
        }
}

/// `found` is what a search of `graph` for the query gives, with frontiers
/// that are empty at first.
pub open spec fn searched(
    graph: Graph,
    q: Query,
    have: &Variations,
    want: &Variations,
    found: Option<Seq<EdgeView>>,
) -> bool {
    exists|f: Frontier, b: Frontier|
        {
            &&& f.fresh(have, graph, true)
            &&& b.fresh(want, graph, false)
            &&& #[trigger] searched_from(graph, q, (f, b), found)
        }
}

/// A run whose steps so far gave no plan goes on by one more step.
pub proof fn lemma_run_goes_on(
    graph: Graph,
    q: Query,
    run: Seq<(Frontier, Frontier)>,
    next: (Frontier, Frontier),
)
    requires
        is_run(graph, q, run),
        forall|i: int|
            0 <= i < run.len() - 1 ==> outcome(graph.edges(), q, (#[trigger] run[i]).0, run[i].1)
                is None,
        run.last().0.queue@.len() + run.last().1.queue@.len() > 0,
        stepped(graph, q, run.last(), next),
    ensures
        is_run(graph, q, run.push(next)),
        run.push(next).first() == run.first(),
        run.push(next).last() == next,
        result(graph, q, run.push(next)) == outcome(graph.edges(), q, run.last().0, run.last().1),
        result(graph, q, run.push(next)) is None ==> forall|i: int|
            0 <= i < run.push(next).len() - 1 ==> outcome(
                graph.edges(),
                q,
                (#[trigger] run.push(next)[i]).0,
                run.push(next)[i].1,
            ) is None,
{
}

} // verus!
