//! Counting arguments behind the proof that a search ends.
use crate::variations::Int;
use vstd::prelude::*;
use vstd::set_lib::lemma_len_subset;

verus! {

/// The sum of the numbers of `s`.
pub open spec fn total(s: Seq<nat>) -> nat
    decreases s.len(),
{
    if s.len() == 0 {
        0
    } else {
        total(s.drop_last()) + s.last()
    }
}

/// Adding a number at the end adds it to the sum.
pub proof fn lemma_total_push(s: Seq<nat>, x: nat)
    ensures
        total(s.push(x)) == total(s) + x,
{
    assert(s.push(x).drop_last() == s);
}

/// Taking a number out takes it from the sum.
pub proof fn lemma_total_remove(s: Seq<nat>, i: int)
    requires
        0 <= i < s.len(),
    ensures
        total(s.remove(i)) + s[i] == total(s),
    decreases s.len(),
{
    if i < s.len() - 1 {
        lemma_total_remove(s.drop_last(), i);
        assert(s.remove(i).drop_last() == s.drop_last().remove(i));
    }
}

/// Sequences that agree number by number have the same sum.
pub proof fn lemma_total_equal(s: Seq<nat>, t: Seq<nat>)
    requires
        s.len() == t.len(),
        forall|i: int| 0 <= i < s.len() ==> s[i] == t[i],
    ensures
        total(s) == total(t),
{
    assert(s == t);
}

/// All subsets of `tags`.
pub open spec fn subsets(tags: Set<Int>) -> Set<Set<Int>> {
    Set::new(|s: Set<Int>| s.subset_of(tags))
}

/// A finite set has finitely many subsets.
pub proof fn lemma_subsets_finite(tags: Set<Int>)
    requires
        tags.finite(),
    ensures
        subsets(tags).finite(),
    decreases tags.len(),
{
    if tags.len() == 0 {
        assert(subsets(tags) == Set::<Set<Int>>::empty().insert(Set::<Int>::empty())) by {
            assert forall|s: Set<Int>| subsets(tags).contains(s) implies s == Set::<Int>::empty() by {
                assert(s =~= Set::<Int>::empty());
            }
        }
    } else {
        let a = tags.choose();
        let rest = tags.remove(a);
        lemma_subsets_finite(rest);
        let with = |s: Set<Int>| s.insert(a);
        subsets(rest).lemma_map_finite(with);
        let both = subsets(rest).union(subsets(rest).map(with));
        assert forall|s: Set<Int>| subsets(tags).contains(s) implies both.contains(s) by {
            if s.contains(a) {
                let less = s.remove(a);
                assert(subsets(rest).contains(less));
            }
        }
        lemma_len_subset(subsets(tags), both);
    }
}

/// Every pair of an edge index below `edges` and a subset of `tags`: all the
/// ways in which a search over `edges` edges can reach an edge, when no tag
/// outside `tags` ever comes into play.
pub open spec fn universe(edges: nat, tags: Set<Int>) -> Set<(int, Set<Int>)> {
    Set::new(|p: (int, Set<Int>)| 0 <= p.0 < edges && p.1.subset_of(tags))
}

/// With finitely many tags there are finitely many such pairs.
pub proof fn lemma_universe_finite(edges: nat, tags: Set<Int>)
    requires
        tags.finite(),
    ensures
        universe(edges, tags).finite(),
    decreases edges,
{
    if edges == 0 {
        assert(universe(edges, tags) == Set::<(int, Set<Int>)>::empty());
    } else {
        let last = (edges - 1) as nat;
        lemma_universe_finite(last, tags);
        lemma_subsets_finite(tags);
        let at = |s: Set<Int>| (last as int, s);
        subsets(tags).lemma_map_finite(at);
        let both = universe(last, tags).union(subsets(tags).map(at));
        assert forall|p: (int, Set<Int>)| universe(edges, tags).contains(p) implies both.contains(
            p,
        ) by {
            if p.0 == last {
                assert(subsets(tags).contains(p.1));
            }
        }
        lemma_len_subset(universe(edges, tags), both);
    }
}

/// One more pair reached leaves fewer pairs to reach.
pub proof fn lemma_fewer_left(
    all: Set<(int, Set<Int>)>,
    reached: Set<(int, Set<Int>)>,
    p: (int, Set<Int>),
)
    requires
        all.finite(),
        all.contains(p),
        !reached.contains(p),
    ensures
        all.difference(reached.insert(p)).len() < all.difference(reached).len(),
{
    all.lemma_set_insert_diff_decreases(reached, p);
}

} // verus!
