//! What a search keeps true of its two frontiers, why the plans it gives are
//! justified, and why it gives a plan whenever one answers the query.
use crate::edge::EdgeView;
use crate::frontier::{lemma_grown, pushed, Frontier};
use crate::graph::{most_tags, Graph};
use crate::plan::{
    after, before, demand, justified, lemma_demand_cons, lemma_provided_push,
    lemma_supply_push, linked, meets, provided, supply, valid, Query,
};
use crate::rules::{approach, backward_path, forward_path, is_goal};
use crate::state::{clip, heuristic, scored};
use crate::variations::Int;
use vstd::prelude::*;

verus! {

/// The forward state `n` was made by the rules: its edge found its tags in
/// what came before, its own tags are those after the edge, and it follows a
/// predecessor that was not excluded, or starts at the query's kind.
pub open spec fn forward_node(edges: Seq<EdgeView>, q: Query, f: Frontier, n: int) -> bool {
    let e = edges[f.edge(n)];
    &&& e.hash_var_in.subset_of(f.key(n))
    &&& f.tags(n) == after(f.key(n), e)
    &&& match f.states@[n].parent {
        Some(p) => !q.skip_edges.contains(edges[f.edge(p as int)]) && edges[f.edge(
            p as int,
        )].hash_out == e.hash_in,
        None => e.hash_in == q.hash_in,
    }
}

/// The backward state `n` was made by the rules: its tags are those asked
/// for before its edge, and it leads to a predecessor that was not excluded,
/// or ends at the kind asked for.
pub open spec fn backward_node(edges: Seq<EdgeView>, q: Query, f: Frontier, n: int) -> bool {
    let e = edges[f.edge(n)];
    &&& f.tags(n) == before(f.key(n), e)
    &&& match f.states@[n].parent {
        Some(p) => !q.skip_edges.contains(edges[f.edge(p as int)]) && e.hash_out == edges[f.edge(
            p as int,
        )].hash_in,
        None => e.hash_out == q.hash_out,
    }
}

/// The forward state `n` has the score and the sum of costs that the rules
/// give it. The score is that of its predecessor, if it has one, plus the cost
/// of its edge times one more than the tags it entered the edge with, less
/// the tags the edge depends on.
pub open spec fn forward_scored(edges: Seq<EdgeView>, f: Frontier, n: int) -> bool {
    let s = f.states@[n];
    let e = edges[f.edge(n)];
    let h = heuristic(f.key(n).len() as int, e.hash_var_in.len() as int);
    match s.parent {
        Some(p) => {
            &&& s.cost == scored(f.states@[p as int].cost as int, e.cost, h)
            &&& s.actual_cost == clip(f.states@[p as int].actual_cost + e.cost)
        },
        None => s.cost == scored(0, e.cost, h) && s.actual_cost == e.cost,
    }
}

/// The backward state `n` has the score and the sum of costs that the rules
/// give it. The score is that of its predecessor, if it has one, plus the cost
/// of its edge times a multiplier: one more than the most tags that an edge
/// which returns the same kind hands out, less the tags the edge hands out of
/// those asked for, and less the tags it depends on. For a root, the most
/// tags that such an edge depends on count instead, together with the tags
/// asked for.
pub open spec fn backward_scored(graph: Graph, f: Frontier, n: int) -> bool {
    let edges = graph.edges();
    let s = f.states@[n];
    let e = edges[f.edge(n)];
    let rivals = graph.incoming(e.hash_out);
    let count = e.hash_var_out.intersect(f.key(n)).len() + e.hash_var_in.len();
    match s.parent {
        Some(p) => {
            &&& s.cost == scored(
                f.states@[p as int].cost as int,
                e.cost,
                heuristic(most_tags(edges, rivals, false) as int, count as int),
            )
            &&& s.actual_cost == clip(f.states@[p as int].actual_cost + e.cost)
        },
        None => {
            &&& s.cost == scored(
                0,
                e.cost,
                heuristic((most_tags(edges, rivals, true) + f.seed@.len()) as int, count as int),
            )
            &&& s.actual_cost == e.cost
        },
    }
}

/// Every forward state has its score and its sum of costs by the rules.
pub open spec fn forward_scores(edges: Seq<EdgeView>, f: Frontier) -> bool {
    forall|n: int| 0 <= n < f.states@.len() ==> #[trigger] forward_scored(edges, f, n)
}

/// Every backward state has its score and its sum of costs by the rules.
pub open spec fn backward_scores(graph: Graph, f: Frontier) -> bool {
    forall|n: int| 0 <= n < f.states@.len() ==> #[trigger] backward_scored(graph, f, n)
}

/// States that are added, served or listed leave the scores of the states
/// that were there as the rules give them.
pub proof fn lemma_scores_kept(graph: Graph, old: Frontier, new: Frontier)
    requires
        old.wf(),
        old.states@.len() <= new.states@.len(),
        forall|m: int| 0 <= m < old.states@.len() ==> new.states@[m] == old.states@[m],
        new.seed == old.seed,
    ensures
        forall|n: int|
            0 <= n < old.states@.len() ==> (#[trigger] forward_scored(graph.edges(), new, n))
                == forward_scored(graph.edges(), old, n),
        forall|n: int|
            0 <= n < old.states@.len() ==> (#[trigger] backward_scored(graph, new, n))
                == backward_scored(graph, old, n),
        new.states@.len() == old.states@.len() && forward_scores(graph.edges(), old)
            ==> forward_scores(graph.edges(), new),
        new.states@.len() == old.states@.len() && backward_scores(graph, old) ==> backward_scores(
            graph,
            new,
        ),
{
    assert forall|n: int| 0 <= n < old.states@.len() implies (#[trigger] forward_scored(
        graph.edges(),
        new,
        n,
    )) == forward_scored(graph.edges(), old, n) by {
        assert(old.node_wf(n));
    }
    assert forall|n: int| 0 <= n < old.states@.len() implies (#[trigger] backward_scored(
        graph,
        new,
        n,
    )) == backward_scored(graph, old, n) by {
        assert(old.node_wf(n));
    }
}

/// A state that is added with its score by the rules leaves every state with
/// its score by the rules.
pub proof fn lemma_scores_pushed(graph: Graph, old: Frontier, new: Frontier)
    requires
        old.wf(),
        pushed(old, new),
    ensures
        forward_scores(graph.edges(), old) && forward_scored(
            graph.edges(),
            new,
            old.states@.len() as int,
        ) ==> forward_scores(graph.edges(), new),
        backward_scores(graph, old) && backward_scored(graph, new, old.states@.len() as int)
            ==> backward_scores(graph, new),
{
    lemma_scores_kept(graph, old, new);
    let last = old.states@.len() as int;
}

/// Along the way from a root, in either direction, the sum of costs never
/// falls.
pub proof fn lemma_cost_grows(graph: Graph, f: Frontier, n: int)
    requires
        graph.wf(),
        f.wf(),
        f.visited@.len() == graph.edges().len(),
        0 <= n < f.states@.len(),
        forward_scored(graph.edges(), f, n) || backward_scored(graph, f, n),
    ensures
        f.states@[n].parent matches Some(p) ==> f.states@[n].actual_cost
            >= f.states@[p as int].actual_cost,
{
    graph.lemma_wf();
    assert(f.node_wf(n));
}

/// A state listed as expanded forward is on an edge that is not excluded, and
/// does not end a plan.
pub open spec fn forward_entry(edges: Seq<EdgeView>, q: Query, f: Frontier, e: int, j: int) -> bool {
    &&& !q.skip_edges.contains(edges[e])
    &&& !is_goal(edges, q, f, f.visited@[e]@[j] as int)
}

/// A state listed as expanded backward is on an edge that is not excluded.
pub open spec fn backward_entry(edges: Seq<EdgeView>, q: Query, f: Frontier, e: int, j: int) -> bool {
    !q.skip_edges.contains(edges[f.edge(f.visited@[e]@[j] as int)])
}

/// Every tag of an edge can come into play.
pub open spec fn covers(edges: Seq<EdgeView>, reach: Set<Int>) -> bool {
    forall|i: int|
        0 <= i < edges.len() ==> (#[trigger] edges[i]).hash_var_in.subset_of(reach)
            && edges[i].hash_var_out.subset_of(reach)
}

/// The forward frontier is well formed and holds only what the rules make.
pub open spec fn forward_sound(edges: Seq<EdgeView>, q: Query, f: Frontier) -> bool {
    &&& f.wf()
    &&& f.visited@.len() == edges.len()
    &&& f.seed@ == q.hash_var_in
    &&& covers(edges, f.reach@)
    &&& forall|n: int| 0 <= n < f.states@.len() ==> #[trigger] forward_node(edges, q, f, n)
    &&& forall|e: int, j: int|
        0 <= e < f.visited@.len() && 0 <= j < f.visited@[e]@.len() ==> #[trigger] forward_entry(
            edges,
            q,
            f,
            e,
            j,
        )
}

/// The backward frontier is well formed and holds only what the rules make.
pub open spec fn backward_sound(edges: Seq<EdgeView>, q: Query, f: Frontier) -> bool {
    &&& f.wf()
    &&& f.visited@.len() == edges.len()
    &&& f.seed@ == q.hash_var_out
    &&& covers(edges, f.reach@)
    &&& forall|n: int| 0 <= n < f.states@.len() ==> #[trigger] backward_node(edges, q, f, n)
    &&& forall|e: int, j: int|
        0 <= e < f.visited@.len() && 0 <= j < f.visited@[e]@.len() ==> #[trigger] backward_entry(
            edges,
            q,
            f,
            e,
            j,
        )
}

/// The edge `e2` can be taken right after the edge `from` by a value with
/// `tags`, and is not excluded.
pub open spec fn enabled(
    edges: Seq<EdgeView>,
    q: Query,
    tags: Set<Int>,
    from: EdgeView,
    e2: int,
) -> bool {
    &&& edges[e2].hash_in == from.hash_out
    &&& edges[e2].hash_var_in.subset_of(tags)
    &&& !q.skip_edges.contains(edges[e2])
}

/// If the edge `e2` can follow the forward state `n`, that step has been
/// expanded or waits.
pub open spec fn closed_at(edges: Seq<EdgeView>, q: Query, f: Frontier, n: int, e2: int) -> bool {
    enabled(edges, q, f.tags(n), edges[f.edge(n)], e2) ==> f.has(e2, f.tags(n)) || f.queued(
        e2,
        f.tags(n),
    )
}

/// `closed_at` for the `j`-th state listed on the edge `e`.
pub open spec fn closed_entry(
    edges: Seq<EdgeView>,
    q: Query,
    f: Frontier,
    e: int,
    j: int,
    e2: int,
) -> bool {
    closed_at(edges, q, f, f.visited@[e]@[j] as int, e2)
}

/// Every step that can follow an expanded forward state has been expanded or
/// waits.
pub open spec fn closed(edges: Seq<EdgeView>, q: Query, f: Frontier) -> bool {
    forall|e: int, j: int, e2: int|
        0 <= e < f.visited@.len() && 0 <= j < f.visited@[e]@.len() && 0 <= e2 < edges.len()
            ==> #[trigger] closed_entry(edges, q, f, e, j, e2)
}

/// `closed`, but for the steps that follow the state `n`.
pub open spec fn closed_except(edges: Seq<EdgeView>, q: Query, f: Frontier, n: int) -> bool {
    forall|e: int, j: int, e2: int|
        0 <= e < f.visited@.len() && 0 <= j < f.visited@[e]@.len() && 0 <= e2 < edges.len()
            && f.visited@[e]@[j] != n ==> #[trigger] closed_entry(edges, q, f, e, j, e2)
}

/// If the edge `e` can be a plan's first step, that step has been expanded or
/// waits.
pub open spec fn rooted(edges: Seq<EdgeView>, q: Query, f: Frontier, e: int) -> bool {
    edges[e].hash_in == q.hash_in && edges[e].hash_var_in.subset_of(q.hash_var_in)
        && !q.skip_edges.contains(edges[e]) ==> f.has(e, q.hash_var_in) || f.queued(
        e,
        q.hash_var_in,
    )
}

/// Every first step of a plan has been expanded or waits.
pub open spec fn seeded(edges: Seq<EdgeView>, q: Query, f: Frontier) -> bool {
    forall|e: int| 0 <= e < edges.len() ==> #[trigger] rooted(edges, q, f, e)
}

/// A state that waits keeps waiting when another is added.
pub proof fn lemma_pushed_queued(old: Frontier, new: Frontier, e: int, key: Set<Int>)
    requires
        old.wf(),
        pushed(old, new),
        old.queued(e, key),
    ensures
        new.queued(e, key),
{
    lemma_grown(old, new);
    let j = choose|j: int|
        0 <= j < old.queue@.len() && old.edge(#[trigger] old.queue@[j] as int) == e && old.key(
            old.queue@[j] as int,
        ) == key;
}

/// Adding a forward state that was made by the rules keeps the frontier
/// sound, and keeps every step that was expanded or waited so.
pub proof fn lemma_forward_pushed(edges: Seq<EdgeView>, q: Query, old: Frontier, new: Frontier)
    requires
        forward_sound(edges, q, old),
        new.wf(),
        pushed(old, new),
        forward_node(edges, q, new, old.states@.len() as int),
    ensures
        forward_sound(edges, q, new),
        closed(edges, q, old) ==> closed(edges, q, new),
        forall|n: int| closed_except(edges, q, old, n) ==> #[trigger] closed_except(edges, q, new, n),
        forall|n: int, e2: int|
            0 <= n < old.states@.len() && 0 <= e2 < edges.len() && closed_at(edges, q, old, n, e2)
                ==> #[trigger] closed_at(
                edges,
                q,
                new,
                n,
                e2,
            ),
        seeded(edges, q, old) ==> seeded(edges, q, new),
        forall|e: int|
            0 <= e < edges.len() && rooted(edges, q, old, e) ==> #[trigger] rooted(edges, q, new, e),
        new.queued(new.edge(old.states@.len() as int), new.key(old.states@.len() as int)),
{
    lemma_grown(old, new);
    let last = old.states@.len() as int;
    assert forall|n: int| 0 <= n < new.states@.len() implies #[trigger] forward_node(
        edges,
        q,
        new,
        n,
    ) by {
        if n < last {
            assert(forward_node(edges, q, old, n));
            assert(old.node_wf(n));
        }
    }
    assert forall|e: int, j: int|
        0 <= e < new.visited@.len() && 0 <= j < new.visited@[e]@.len() implies #[trigger] forward_entry(
        edges,
        q,
        new,
        e,
        j,
    ) by {
        assert(forward_entry(edges, q, old, e, j));
        assert(old.entry_wf(e, j));
    }
    assert forall|n: int, e2: int|
        0 <= n < old.states@.len() && 0 <= e2 < edges.len() && closed_at(edges, q, old, n, e2)
            implies #[trigger] closed_at(
        edges,
        q,
        new,
        n,
        e2,
    ) by {
        if enabled(edges, q, new.tags(n), edges[new.edge(n)], e2) {
            if old.queued(e2, old.tags(n)) {
                lemma_pushed_queued(old, new, e2, old.tags(n));
            }
        }
    }
    assert forall|e: int|
        0 <= e < edges.len() && rooted(edges, q, old, e) implies #[trigger] rooted(
        edges,
        q,
        new,
        e,
    ) by {
        if old.queued(e, q.hash_var_in) {
            lemma_pushed_queued(old, new, e, q.hash_var_in);
        }
    }
    if closed(edges, q, old) {
        assert forall|e: int, j: int, e2: int|
            0 <= e < new.visited@.len() && 0 <= j < new.visited@[e]@.len() && 0 <= e2
                < edges.len() implies #[trigger] closed_entry(edges, q, new, e, j, e2) by {
            assert(closed_entry(edges, q, old, e, j, e2));
            assert(old.entry_wf(e, j));
        }
    }
    assert forall|n: int| closed_except(edges, q, old, n) implies #[trigger] closed_except(
        edges,
        q,
        new,
        n,
    ) by {
        assert forall|e: int, j: int, e2: int|
            0 <= e < new.visited@.len() && 0 <= j < new.visited@[e]@.len() && 0 <= e2
                < edges.len() && new.visited@[e]@[j] != n implies #[trigger] closed_entry(
            edges,
            q,
            new,
            e,
            j,
            e2,
        ) by {
            assert(closed_entry(edges, q, old, e, j, e2));
            assert(old.entry_wf(e, j));
        }
    }
    assert(new.queue@[old.queue@.len() as int] == new.queue@.last());
}

/// Adding a backward state that was made by the rules keeps the frontier
/// sound.
pub proof fn lemma_backward_pushed(edges: Seq<EdgeView>, q: Query, old: Frontier, new: Frontier)
    requires
        backward_sound(edges, q, old),
        new.wf(),
        pushed(old, new),
        backward_node(edges, q, new, old.states@.len() as int),
    ensures
        backward_sound(edges, q, new),
{
    lemma_grown(old, new);
    let last = old.states@.len() as int;
    assert forall|n: int| 0 <= n < new.states@.len() implies #[trigger] backward_node(
        edges,
        q,
        new,
        n,
    ) by {
        if n < last {
            assert(backward_node(edges, q, old, n));
            assert(old.node_wf(n));
        }
    }
    assert forall|e: int, j: int|
        0 <= e < new.visited@.len() && 0 <= j < new.visited@[e]@.len() implies #[trigger] backward_entry(
        edges,
        q,
        new,
        e,
        j,
    ) by {
        assert(backward_entry(edges, q, old, e, j));
        assert(old.entry_wf(e, j));
    }
}

/// The path to a forward state starts at the query's kind, is linked, finds
/// its tags at every step, and ends with the state's tags. Only its last
/// edge can be an excluded one.
pub proof fn lemma_forward_path(edges: Seq<EdgeView>, q: Query, f: Frontier, n: int)
    requires
        forward_sound(edges, q, f),
        0 <= n < f.states@.len(),
    ensures
        ({
            let p = forward_path(edges, f, n);
            &&& p.len() >= 1
            &&& p.len() == f.up(n).len()
            &&& p.first().hash_in == q.hash_in
            &&& p.last() == edges[f.edge(n)]
            &&& linked(p)
            &&& provided(q.hash_var_in, p)
            &&& supply(q.hash_var_in, p) == f.tags(n)
            &&& supply(q.hash_var_in, p.drop_last()) == f.key(n)
            &&& forall|i: int| 0 <= i < p.len() ==> edges.contains(#[trigger] p[i])
            &&& forall|i: int| 0 <= i < p.len() - 1 ==> !q.skip_edges.contains(#[trigger] p[i])
        }),
    decreases n,
{
    let have = q.hash_var_in;
    let p = forward_path(edges, f, n);
    let e = edges[f.edge(n)];
    assert(forward_node(edges, q, f, n));
    assert(f.node_wf(n));
    match f.states@[n].parent {
        Some(parent) => {
            let m = parent as int;
            lemma_forward_path(edges, q, f, m);
            let front = forward_path(edges, f, m);
            assert(p == front.push(e));
            assert(p.drop_last() == front);
            lemma_supply_push(have, front, e);
            lemma_provided_push(have, front, e);
        },
        None => {
            lemma_provided_push(have, Seq::<EdgeView>::empty(), e);
        },
    }
}

/// The path from a backward state ends at the kind asked for, is linked, and
/// asks, read backward, for the state's tags. Only its first edge can be an
/// excluded one.
pub proof fn lemma_backward_path(edges: Seq<EdgeView>, q: Query, f: Frontier, n: int)
    requires
        backward_sound(edges, q, f),
        0 <= n < f.states@.len(),
    ensures
        ({
            let p = backward_path(edges, f, n);
            &&& p.len() >= 1
            &&& p.len() == f.up(n).len()
            &&& p.last().hash_out == q.hash_out
            &&& p.first() == edges[f.edge(n)]
            &&& linked(p)
            &&& demand(p, q.hash_var_out) == f.tags(n)
            &&& demand(p.drop_first(), q.hash_var_out) == f.key(n)
            &&& forall|i: int| 0 <= i < p.len() ==> edges.contains(#[trigger] p[i])
            &&& forall|i: int| 1 <= i < p.len() ==> !q.skip_edges.contains(#[trigger] p[i])
        }),
    decreases n,
{
    let want = q.hash_var_out;
    let p = backward_path(edges, f, n);
    let e = edges[f.edge(n)];
    assert(backward_node(edges, q, f, n));
    assert(f.node_wf(n));
    match f.states@[n].parent {
        Some(parent) => {
            let m = parent as int;
            lemma_backward_path(edges, q, f, m);
            let rest = backward_path(edges, f, m);
            assert(p == seq![e] + rest);
            assert(p.drop_first() == rest);
        },
        None => {
            assert(p == seq![e]);
            lemma_demand_cons(e, Seq::<EdgeView>::empty(), want);
        },
    }
}

/// A forward part that finds its tags and a backward part that asks for no
/// more than the forward part leaves make a justified plan.
pub proof fn lemma_joined(edges: Seq<EdgeView>, q: Query, a: Seq<EdgeView>, b: Seq<EdgeView>)
    requires
        a.len() + b.len() > 0,
        a.len() > 0 ==> a.first().hash_in == q.hash_in,
        a.len() == 0 ==> b.first().hash_in == q.hash_in,
        b.len() > 0 ==> b.last().hash_out == q.hash_out,
        b.len() == 0 ==> a.last().hash_out == q.hash_out,
        linked(a),
        linked(b),
        a.len() > 0 && b.len() > 0 ==> a.last().hash_out == b.first().hash_in,
        provided(q.hash_var_in, a),
        demand(b, q.hash_var_out).subset_of(supply(q.hash_var_in, a)),
        forall|i: int| 0 <= i < a.len() ==> edges.contains(#[trigger] a[i]),
        forall|i: int| 0 <= i < b.len() ==> edges.contains(#[trigger] b[i]),
        forall|i: int| 0 <= i < a.len() ==> !q.skip_edges.contains(#[trigger] a[i]),
        forall|i: int| 0 <= i < b.len() ==> !q.skip_edges.contains(#[trigger] b[i]),
    ensures
        justified(edges.to_set(), q, a + b),
{
    let path = a + b;
    let k = a.len() as int;
    assert(path.take(k) == a);
    assert(path.skip(k) == b);
    assert(meets(q, path, k));
}

/// `new` is `old` after the waiting state at the place `at` was taken out
/// and, perhaps, listed as expanded.
pub open spec fn served(old: Frontier, new: Frontier, at: int) -> bool {
    &&& 0 <= at < old.queue@.len()
    &&& new.states == old.states
    &&& new.queue@ == old.queue@.remove(at)
    &&& new.seed == old.seed
    &&& new.fan == old.fan
    &&& new.reach == old.reach
    &&& new.visited@.len() == old.visited@.len()
}

/// `new` lists the state `n` as expanded, and besides it only states that
/// `old` lists.
pub open spec fn listed(old: Frontier, new: Frontier, n: int) -> bool {
    &&& forall|e: int, key: Set<Int>|
        0 <= e < old.visited@.len() ==> (#[trigger] new.has(e, key) <==> old.has(e, key) || (e, key)
            == old.pair(n))
    &&& forall|e: int, j: int|
        0 <= e < new.visited@.len() && 0 <= j < new.visited@[e]@.len() ==> {
            ||| (#[trigger] new.visited@[e]@[j]) == n
            ||| old.visited@[e]@.contains(new.visited@[e]@[j])
        }
}

/// A state that waited still waits when another was served, unless it
/// entered the same edge with the same tags.
pub proof fn lemma_served_queued(old: Frontier, new: Frontier, at: int, e: int, key: Set<Int>)
    requires
        served(old, new, at),
        old.queued(e, key),
    ensures
        new.queued(e, key) || (e, key) == old.pair(old.queue@[at] as int),
{
    let j = choose|j: int|
        0 <= j < old.queue@.len() && old.edge(#[trigger] old.queue@[j] as int) == e && old.key(
            old.queue@[j] as int,
        ) == key;
    if j < at {
        assert(new.queue@[j] == old.queue@[j]);
    } else if j > at {
        assert(new.queue@[j - 1] == old.queue@[j]);
    }
}

/// Taking a forward state out of the queue keeps the frontier sound. Where
/// the state is on an excluded edge, every step that can be part of a plan
/// is still expanded or waits.
pub proof fn lemma_forward_dropped(
    edges: Seq<EdgeView>,
    q: Query,
    old: Frontier,
    new: Frontier,
    at: int,
)
    requires
        forward_sound(edges, q, old),
        new.wf(),
        served(old, new, at),
        new.visited == old.visited,
    ensures
        forward_sound(edges, q, new),
        q.skip_edges.contains(edges[old.edge(old.queue@[at] as int)]) && closed(edges, q, old)
            ==> closed(edges, q, new),
        q.skip_edges.contains(edges[old.edge(old.queue@[at] as int)]) && seeded(edges, q, old)
            ==> seeded(edges, q, new),
{
    assert forall|n: int| 0 <= n < new.states@.len() implies #[trigger] forward_node(
        edges,
        q,
        new,
        n,
    ) by {
        assert(forward_node(edges, q, old, n));
    }
    assert forall|e: int, j: int|
        0 <= e < new.visited@.len() && 0 <= j < new.visited@[e]@.len() implies #[trigger] forward_entry(
        edges,
        q,
        new,
        e,
        j,
    ) by {
        assert(forward_entry(edges, q, old, e, j));
    }
    let dropped = q.skip_edges.contains(edges[old.edge(old.queue@[at] as int)]);
    if dropped && closed(edges, q, old) {
        assert forall|e: int, j: int, e2: int|
            0 <= e < new.visited@.len() && 0 <= j < new.visited@[e]@.len() && 0 <= e2
                < edges.len() implies #[trigger] closed_entry(edges, q, new, e, j, e2) by {
            assert(closed_entry(edges, q, old, e, j, e2));
            let n = old.visited@[e]@[j] as int;
            if enabled(edges, q, new.tags(n), edges[new.edge(n)], e2) {
                if old.queued(e2, old.tags(n)) {
                    lemma_served_queued(old, new, at, e2, old.tags(n));
                } else {
                    let k = choose|k: int|
                        0 <= k < old.visited@[e2]@.len() && old.key(
                            #[trigger] old.visited@[e2]@[k] as int,
                        ) == old.tags(n);
                }
            }
        }
    }
    if dropped && seeded(edges, q, old) {
        assert forall|e: int| 0 <= e < edges.len() implies #[trigger] rooted(edges, q, new, e) by {
            assert(rooted(edges, q, old, e));
            if old.queued(e, q.hash_var_in) {
                lemma_served_queued(old, new, at, e, q.hash_var_in);
            } else if old.has(e, q.hash_var_in) {
                let k = choose|k: int|
                    0 <= k < old.visited@[e]@.len() && old.key(
                        #[trigger] old.visited@[e]@[k] as int,
                    ) == q.hash_var_in;
            }
        }
    }
}

/// Serving a forward state `n` that is not excluded and ends no plan, and
/// listing it as expanded, keeps the frontier sound. Every step that was
/// expanded or waited is so still, but for the steps that follow `n`: those
/// are the next thing to add.
pub proof fn lemma_forward_served(
    edges: Seq<EdgeView>,
    q: Query,
    old: Frontier,
    new: Frontier,
    n: int,
    at: int,
)
    requires
        forward_sound(edges, q, old),
        new.wf(),
        served(old, new, at),
        old.queue@[at] == n,
        listed(old, new, n),
        !q.skip_edges.contains(edges[old.edge(n)]),
        !is_goal(edges, q, old, n),
    ensures
        forward_sound(edges, q, new),
        closed(edges, q, old) ==> closed_except(edges, q, new, n),
        seeded(edges, q, old) ==> seeded(edges, q, new),
{
    assert forall|m: int| 0 <= m < new.states@.len() implies #[trigger] forward_node(
        edges,
        q,
        new,
        m,
    ) by {
        assert(forward_node(edges, q, old, m));
    }
    assert forall|e: int, j: int|
        0 <= e < new.visited@.len() && 0 <= j < new.visited@[e]@.len() implies #[trigger] forward_entry(
        edges,
        q,
        new,
        e,
        j,
    ) by {
        assert(new.entry_wf(e, j));
        let x = new.visited@[e]@[j];
        if x != n {
            let k = choose|k: int| 0 <= k < old.visited@[e]@.len() && old.visited@[e]@[k] == x;
            assert(forward_entry(edges, q, old, e, k));
        }
    }
    if closed(edges, q, old) {
        assert forall|e: int, j: int, e2: int|
            0 <= e < new.visited@.len() && 0 <= j < new.visited@[e]@.len() && 0 <= e2
                < edges.len() && new.visited@[e]@[j] != n implies #[trigger] closed_entry(
            edges,
            q,
            new,
            e,
            j,
            e2,
        ) by {
            let x = new.visited@[e]@[j];
            let k = choose|k: int| 0 <= k < old.visited@[e]@.len() && old.visited@[e]@[k] == x;
            assert(closed_entry(edges, q, old, e, k, e2));
            let m = x as int;
            if enabled(edges, q, new.tags(m), edges[new.edge(m)], e2) {
                if old.queued(e2, old.tags(m)) {
                    lemma_served_queued(old, new, at, e2, old.tags(m));
                }
            }
        }
    }
    if seeded(edges, q, old) {
        assert forall|e: int| 0 <= e < edges.len() implies #[trigger] rooted(edges, q, new, e) by {
            assert(rooted(edges, q, old, e));
            if old.queued(e, q.hash_var_in) {
                lemma_served_queued(old, new, at, e, q.hash_var_in);
            }
        }
    }
}

/// Serving a backward state keeps the frontier sound, whether the state is
/// dropped or, not being excluded, listed as expanded.
pub proof fn lemma_backward_served(
    edges: Seq<EdgeView>,
    q: Query,
    old: Frontier,
    new: Frontier,
    n: int,
    at: int,
)
    requires
        backward_sound(edges, q, old),
        new.wf(),
        served(old, new, at),
        old.queue@[at] == n,
        new.visited == old.visited || (listed(old, new, n) && !q.skip_edges.contains(
            edges[old.edge(n)],
        )),
    ensures
        backward_sound(edges, q, new),
{
    assert forall|m: int| 0 <= m < new.states@.len() implies #[trigger] backward_node(
        edges,
        q,
        new,
        m,
    ) by {
        assert(backward_node(edges, q, old, m));
    }
    assert forall|e: int, j: int|
        0 <= e < new.visited@.len() && 0 <= j < new.visited@[e]@.len() implies #[trigger] backward_entry(
        edges,
        q,
        new,
        e,
        j,
    ) by {
        if new.visited == old.visited {
            assert(backward_entry(edges, q, old, e, j));
        } else {
            let x = new.visited@[e]@[j];
            if x != n {
                let k = choose|k: int| 0 <= k < old.visited@[e]@.len() && old.visited@[e]@[k] == x;
                assert(backward_entry(edges, q, old, e, k));
            }
        }
    }
}

/// The path to a forward state that ends a plan is a justified plan.
pub proof fn lemma_forward_goal(edges: Seq<EdgeView>, q: Query, f: Frontier, n: int)
    requires
        forward_sound(edges, q, f),
        0 <= n < f.states@.len(),
        is_goal(edges, q, f, n),
        !q.skip_edges.contains(edges[f.edge(n)]),
    ensures
        justified(edges.to_set(), q, forward_path(edges, f, n) + Seq::<EdgeView>::empty()),
{
    lemma_forward_path(edges, q, f, n);
    let p = forward_path(edges, f, n);
    lemma_joined(edges, q, p, Seq::<EdgeView>::empty());
}

/// The path from a backward state whose edge accepts the query's kind, and
/// whose tags the value at hand carries, is a justified plan.
pub proof fn lemma_backward_goal(edges: Seq<EdgeView>, q: Query, f: Frontier, n: int)
    requires
        backward_sound(edges, q, f),
        0 <= n < f.states@.len(),
        edges[f.edge(n)].hash_in == q.hash_in,
        f.tags(n).subset_of(q.hash_var_in),
        !q.skip_edges.contains(edges[f.edge(n)]),
    ensures
        justified(edges.to_set(), q, Seq::<EdgeView>::empty() + backward_path(edges, f, n)),
{
    lemma_backward_path(edges, q, f, n);
    let p = backward_path(edges, f, n);
    lemma_joined(edges, q, Seq::<EdgeView>::empty(), p);
}

/// Where a forward state `n` and a backward state `c` are on the same edge,
/// and `c` asks for no more tags than `n` entered the edge with, the way to
/// the predecessor of `n` and on from `c` is a justified plan.
pub proof fn lemma_meeting(
    edges: Seq<EdgeView>,
    q: Query,
    forward: Frontier,
    backward: Frontier,
    n: int,
    c: int,
)
    requires
        forward_sound(edges, q, forward),
        backward_sound(edges, q, backward),
        0 <= n < forward.states@.len(),
        0 <= c < backward.states@.len(),
        forward.edge(n) == backward.edge(c),
        !q.skip_edges.contains(edges[forward.edge(n)]),
        backward.tags(c).subset_of(forward.key(n)),
    ensures
        justified(
            edges.to_set(),
            q,
            approach(edges, forward, n) + backward_path(edges, backward, c),
        ),
{
    let a = approach(edges, forward, n);
    let b = backward_path(edges, backward, c);
    lemma_backward_path(edges, q, backward, c);
    assert(forward_node(edges, q, forward, n));
    assert(forward.node_wf(n));
    match forward.states@[n].parent {
        Some(p) => {
            lemma_forward_path(edges, q, forward, p as int);
        },
        None => {},
    }
    lemma_joined(edges, q, a, b);
}

/// The forward search has expanded the step `i` of `path`, entered with the
/// tags that a value carries at that point.
pub open spec fn reached(
    edges: Seq<EdgeView>,
    q: Query,
    f: Frontier,
    path: Seq<EdgeView>,
    i: int,
) -> bool {
    exists|e: int, j: int|
        0 <= e < edges.len() && 0 <= j < f.visited@[e]@.len() && edges[e] == path[i] && f.key(
            #[trigger] f.visited@[e]@[j] as int,
        ) == supply(q.hash_var_in, path.take(i))
}

/// When no forward state waits, the forward search has expanded every step
/// of every valid plan.
proof fn lemma_reached(edges: Seq<EdgeView>, q: Query, f: Frontier, path: Seq<EdgeView>, i: int)
    requires
        forward_sound(edges, q, f),
        closed(edges, q, f),
        seeded(edges, q, f),
        f.queue@.len() == 0,
        valid(edges.to_set(), q, path),
        0 <= i < path.len(),
    ensures
        reached(edges, q, f, path, i),
    decreases i,
{
    let have = q.hash_var_in;
    let e2 = choose|e2: int| 0 <= e2 < edges.len() && edges[e2] == path[i];
    if i == 0 {
        assert(rooted(edges, q, f, e2));
        let j = choose|j: int|
            0 <= j < f.visited@[e2]@.len() && f.key(#[trigger] f.visited@[e2]@[j] as int) == have;
    } else {
        lemma_reached(edges, q, f, path, i - 1);
        let (e, j) = choose|e: int, j: int|
            0 <= e < edges.len() && 0 <= j < f.visited@[e]@.len() && edges[e] == path[i - 1]
                && f.key(#[trigger] f.visited@[e]@[j] as int) == supply(have, path.take(i - 1));
        let m = f.visited@[e]@[j] as int;
        assert(f.entry_wf(e, j));
        assert(forward_node(edges, q, f, m));
        assert(path.take(i) == path.take(i - 1).push(path[i - 1]));
        lemma_supply_push(have, path.take(i - 1), path[i - 1]);
        assert(closed_entry(edges, q, f, e, j, e2));
        let j2 = choose|j2: int|
            0 <= j2 < f.visited@[e2]@.len() && f.key(#[trigger] f.visited@[e2]@[j2] as int)
                == f.tags(m);
    }
}

/// When no forward state waits, and the forward search started from every
/// first step and left out no step that could follow, no plan answers the
/// query. Its last step would have been served, and a state that ends a plan
/// ends the search.
pub proof fn lemma_exhausted(edges: Seq<EdgeView>, q: Query, f: Frontier, path: Seq<EdgeView>)
    requires
        forward_sound(edges, q, f),
        closed(edges, q, f),
        seeded(edges, q, f),
        f.queue@.len() == 0,
    ensures
        !valid(edges.to_set(), q, path),
{
    if valid(edges.to_set(), q, path) {
        let have = q.hash_var_in;
        let last = path.len() - 1;
        lemma_reached(edges, q, f, path, last);
        let (e, j) = choose|e: int, j: int|
            0 <= e < edges.len() && 0 <= j < f.visited@[e]@.len() && edges[e] == path[last] && f.key(
                #[trigger] f.visited@[e]@[j] as int,
            ) == supply(have, path.take(last));
        let m = f.visited@[e]@[j] as int;
        assert(f.entry_wf(e, j));
        assert(forward_node(edges, q, f, m));
        assert(forward_entry(edges, q, f, e, j));
    }
}

} // verus!
