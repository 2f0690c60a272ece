//! What a plan is: the mathematical statement of the planner's task.
//!
//! A plan is a sequence of edges. Everything here is ghost code: the
//! functions say when a sequence answers a query, and the lemmas relate the
//! forward reading of a plan (which tags the value carries after each step) to
//! the backward reading (which tags each step, and the caller, still ask for).
use crate::edge::EdgeView;
use crate::variations::{replaced, Int};
use vstd::prelude::*;

verus! {

/// What is asked of the planner.
pub struct Query {
    /// The kind of the value at hand.
    pub hash_in: Int,
    /// The tags the value carries.
    pub hash_var_in: Set<Int>,
    /// The kind asked for.
    pub hash_out: Int,
    /// The tags asked for.
    pub hash_var_out: Set<Int>,
    /// Edges that must not be used.
    pub skip_edges: Set<EdgeView>,
}

/// The tags a value carries after the step `e`, when it carried `tags` before.
pub open spec fn after(tags: Set<Int>, e: EdgeView) -> Set<Int> {
    replaced(tags, e.hash_var_in, e.hash_var_out)
}

/// The tags a value must carry before the step `e`, so that `e` can be taken
/// and `tags` are carried, or can still be added, after it.
pub open spec fn before(tags: Set<Int>, e: EdgeView) -> Set<Int> {
    replaced(tags, e.hash_var_out, e.hash_var_in)
}

/// The tags a value carries after all steps of `path`, when it started with
/// `have`.
pub open spec fn supply(have: Set<Int>, path: Seq<EdgeView>) -> Set<Int>
    decreases path.len(),
{
    if path.len() == 0 {
        have
    } else {
        after(supply(have, path.drop_last()), path.last())
    }
}

/// The tags that `path` asks of the value it starts from, when `want` is asked
/// of the value it ends with. It is computed from the last step back and
/// takes no account of tags that an earlier step consumes.
pub open spec fn demand(path: Seq<EdgeView>, want: Set<Int>) -> Set<Int>
    decreases path.len(),
{
    if path.len() == 0 {
        want
    } else {
        before(demand(path.drop_first(), want), path.first())
    }
}

/// Each step returns the kind that the next one accepts.
pub open spec fn linked(path: Seq<EdgeView>) -> bool {
    forall|i: int| 0 <= i < path.len() - 1 ==> (#[trigger] path[i]).hash_out == path[i + 1].hash_in
}

/// `path` has a step, starts at the kind `from`, ends at the kind `to`, and is
/// linked.
pub open spec fn spans(path: Seq<EdgeView>, from: Int, to: Int) -> bool {
    &&& path.len() > 0
    &&& path.first().hash_in == from
    &&& path.last().hash_out == to
    &&& linked(path)
}

/// Every step of `path` finds the tags it depends on, when the value starts
/// with `have`.
pub open spec fn provided(have: Set<Int>, path: Seq<EdgeView>) -> bool {
    forall|i: int|
        0 <= i < path.len() ==> (#[trigger] path[i]).hash_var_in.subset_of(
            supply(have, path.take(i)),
        )
}

/// `path` leads from the query's kind to the kind asked for, over edges of
/// `graph` that the query does not exclude.
pub open spec fn admissible(graph: Set<EdgeView>, q: Query, path: Seq<EdgeView>) -> bool {
    &&& spans(path, q.hash_in, q.hash_out)
    &&& forall|i: int| 0 <= i < path.len() ==> graph.contains(#[trigger] path[i])
    &&& forall|i: int| 0 <= i < path.len() ==> !q.skip_edges.contains(#[trigger] path[i])
}

/// `path` answers the query: it is admissible, every step finds its tags, and
/// the value it ends with carries the tags asked for.
pub open spec fn valid(graph: Set<EdgeView>, q: Query, path: Seq<EdgeView>) -> bool {
    &&& admissible(graph, q, path)
    &&& provided(q.hash_var_in, path)
    &&& q.hash_var_out.subset_of(supply(q.hash_var_in, path))
}

/// The first `k` steps of `path` find their tags, and what the remaining
/// steps ask for, read backward, is carried after those `k` steps.
pub open spec fn meets(q: Query, path: Seq<EdgeView>, k: int) -> bool {
    &&& 0 <= k <= path.len()
    &&& provided(q.hash_var_in, path.take(k))
    &&& demand(path.skip(k), q.hash_var_out).subset_of(supply(q.hash_var_in, path.take(k)))
}

/// `path` is admissible and its forward and backward readings meet at some
/// step. This is what the search establishes of the plan it returns: a plan
/// found forward meets at its end, one found backward at its start, one
/// stitched from both at the step where they touched.
pub open spec fn justified(graph: Set<EdgeView>, q: Query, path: Seq<EdgeView>) -> bool {
    &&& admissible(graph, q, path)
    &&& exists|k: int| meets(q, path, k)
}

/// No step of `path` consumes a tag, without handing it out again, that a
/// later step or the caller still asks for.
pub open spec fn sparing(path: Seq<EdgeView>, want: Set<Int>) -> bool {
    forall|i: int|
        0 <= i < path.len() ==> (#[trigger] path[i]).hash_var_in.difference(
            path[i].hash_var_out,
        ).disjoint(demand(path.skip(i + 1), want))
}

/// What a search may return for a query: a justified plan, or nothing when no
/// valid plan exists.
pub open spec fn answers(graph: Set<EdgeView>, q: Query, found: Option<Seq<EdgeView>>) -> bool {
    match found {
        Some(path) => justified(graph, q, path),
        None => forall|path: Seq<EdgeView>| !valid(graph, q, path),
    }
}

/// The supply after one more step.
pub proof fn lemma_supply_push(have: Set<Int>, path: Seq<EdgeView>, e: EdgeView)
    ensures
        supply(have, path.push(e)) == after(supply(have, path), e),
{
    assert(path.push(e).drop_last() == path);
}

/// The demand with one more step in front.
pub proof fn lemma_demand_cons(e: EdgeView, path: Seq<EdgeView>, want: Set<Int>)
    ensures
        demand(seq![e] + path, want) == before(demand(path, want), e),
{
    let whole = seq![e] + path;
    assert(whole.drop_first() == path);
}

/// A path whose steps find their tags still does so with one more step that
/// finds its own.
pub proof fn lemma_provided_push(have: Set<Int>, path: Seq<EdgeView>, e: EdgeView)
    requires
        provided(have, path),
        e.hash_var_in.subset_of(supply(have, path)),
    ensures
        provided(have, path.push(e)),
{
    let longer = path.push(e);
    assert forall|i: int| 0 <= i < longer.len() implies (#[trigger] longer[i]).hash_var_in.subset_of(
        supply(have, longer.take(i)),
    ) by {
        if i < path.len() {
            assert(longer.take(i) == path.take(i));
        } else {
            assert(longer.take(i) == path);
        }
    }
}

/// The steps of a path that finds its tags do so up to any point.
pub proof fn lemma_provided_take(have: Set<Int>, path: Seq<EdgeView>, k: int)
    requires
        provided(have, path),
        0 <= k <= path.len(),
    ensures
        provided(have, path.take(k)),
{
    let front = path.take(k);
    assert forall|i: int| 0 <= i < front.len() implies (#[trigger] front[i]).hash_var_in.subset_of(
        supply(have, front.take(i)),
    ) by {
        assert(front.take(i) == path.take(i));
    }
}

/// Where the readings of a sparing path meet at step `k`, they meet at every
/// later step too.
proof fn lemma_meeting_moves(q: Query, path: Seq<EdgeView>, k: int, to: int)
    requires
        meets(q, path, k),
        sparing(path, q.hash_var_out),
        k <= to <= path.len(),
    ensures
        meets(q, path, to),
    decreases to - k,
{
    if k < to {
        let e = path[k];
        let rest = path.skip(k);
        let have = q.hash_var_in;
        assert(rest.drop_first() == path.skip(k + 1));
        assert(path.take(k + 1) == path.take(k).push(e));
        lemma_supply_push(have, path.take(k), e);
        lemma_provided_push(have, path.take(k), e);
        lemma_meeting_moves(q, path, k + 1, to);
    }
}

/// Where the readings of a path whose steps find their tags meet at step
/// `k`, they meet at every earlier step too.
proof fn lemma_meeting_moves_back(q: Query, path: Seq<EdgeView>, k: int, to: int)
    requires
        meets(q, path, k),
        0 <= to <= k,
    ensures
        meets(q, path, to),
    decreases k - to,
{
    if to < k {
        let e = path[k - 1];
        let have = q.hash_var_in;
        let front = path.take(k - 1);
        let rest = path.skip(k - 1);
        assert(path.take(k).take(k - 1) == front);
        lemma_provided_take(have, path.take(k), k - 1);
        assert(rest.drop_first() == path.skip(k));
        lemma_meeting_moves_back(q, path, k - 1, to);
    }
}

/// A valid plan is sparing.
proof fn lemma_valid_sparing(q: Query, path: Seq<EdgeView>, i: int)
    requires
        provided(q.hash_var_in, path),
        q.hash_var_out.subset_of(supply(q.hash_var_in, path)),
        0 <= i < path.len(),
    ensures
        path[i].hash_var_in.difference(path[i].hash_var_out).disjoint(
            demand(path.skip(i + 1), q.hash_var_out),
        ),
{
    assert(path.take(path.len() as int) == path);
    lemma_meeting_moves_back(q, path, path.len() as int, i + 1);
    let e = path[i];
}

/// A plan that answers the query is justified: its readings meet at its end.
pub proof fn lemma_valid_is_justified(graph: Set<EdgeView>, q: Query, path: Seq<EdgeView>)
    requires
        valid(graph, q, path),
    ensures
        justified(graph, q, path),
{
    assert(path.take(path.len() as int) == path);
    assert(meets(q, path, path.len() as int));
}

/// Every step of a justified plan finds the tags it depends on, and the
/// plan ends with the tags asked for, exactly when the plan is sparing.
///
/// A plan found backward, or stitched from both directions, is justified by
/// the tags its later steps ask for. Where an earlier step consumes such a
/// tag, the later step does not find it, and the plan does not answer the
/// query although the search returned it.
pub proof fn lemma_dependencies_satisfied(graph: Set<EdgeView>, q: Query, path: Seq<EdgeView>)
    requires
        justified(graph, q, path),
    ensures
        sparing(path, q.hash_var_out) <==> provided(q.hash_var_in, path) && q.hash_var_out.subset_of(
            supply(q.hash_var_in, path),
        ),
        sparing(path, q.hash_var_out) <==> valid(graph, q, path),
{
    if sparing(path, q.hash_var_out) {
        let k = choose|k: int| meets(q, path, k);
        lemma_meeting_moves(q, path, k, path.len() as int);
        assert(path.take(path.len() as int) == path);
    }
    if provided(q.hash_var_in, path) && q.hash_var_out.subset_of(supply(q.hash_var_in, path)) {
        assert forall|i: int| 0 <= i < path.len() implies (#[trigger] path[i]).hash_var_in.difference(
            path[i].hash_var_out,
        ).disjoint(demand(path.skip(i + 1), q.hash_var_out)) by {
            lemma_valid_sparing(q, path, i);
        }
    }
}

/// A plan that a search returns starts at the kind of the value at hand, ends
/// at the kind asked for, and each of its steps returns the kind that the
/// next one accepts.
pub proof fn lemma_found_connects(graph: Set<EdgeView>, q: Query, path: Seq<EdgeView>)
    requires
        answers(graph, q, Some(path)),
    ensures
        path.len() > 0,
        path.first().hash_in == q.hash_in,
        path.last().hash_out == q.hash_out,
        forall|i: int| 0 <= i < path.len() - 1 ==> (#[trigger] path[i]).hash_out == path[i + 1].hash_in,
{
}

/// A plan that a search returns is made of edges of the graph, none of which
/// the query excludes.
pub proof fn lemma_found_avoids(graph: Set<EdgeView>, q: Query, path: Seq<EdgeView>)
    requires
        answers(graph, q, Some(path)),
    ensures
        forall|i: int| 0 <= i < path.len() ==> graph.contains(#[trigger] path[i]),
        forall|i: int| 0 <= i < path.len() ==> !q.skip_edges.contains(#[trigger] path[i]),
{
}

/// In a sparing plan that a search returns, every step finds the tags it
/// depends on, and the plan ends with the tags asked for.
pub proof fn lemma_found_provides(graph: Set<EdgeView>, q: Query, path: Seq<EdgeView>)
    requires
        answers(graph, q, Some(path)),
        sparing(path, q.hash_var_out),
    ensures
        forall|i: int|
            0 <= i < path.len() ==> (#[trigger] path[i]).hash_var_in.subset_of(
                supply(q.hash_var_in, path.take(i)),
            ),
        q.hash_var_out.subset_of(supply(q.hash_var_in, path)),
{
    lemma_dependencies_satisfied(graph, q, path);
}

/// Where a plan answers the query, a search returns a plan.
pub proof fn lemma_found_if_any(
    graph: Set<EdgeView>,
    q: Query,
    found: Option<Seq<EdgeView>>,
    path: Seq<EdgeView>,
)
    requires
        answers(graph, q, found),
        valid(graph, q, path),
    ensures
        found is Some,
{
}

/// Where no plan is justified, a search returns none. (A plan can be
/// justified without answering the query: see `lemma_dependencies_satisfied`.
/// Where only such plans exist, a search may return one.)
pub proof fn lemma_none_if_none(graph: Set<EdgeView>, q: Query, found: Option<Seq<EdgeView>>)
    requires
        answers(graph, q, found),
        forall|path: Seq<EdgeView>| !justified(graph, q, path),
    ensures
        found is None,
{
}

} // verus!
