//! Tag sets and the operations the planner needs on them.
use std::collections::BTreeSet;
use vstd::prelude::*;
use vstd::set_lib::lemma_subset_equality;
use vstd::std_specs::iter::IteratorSpec;

verus! {

/// An identifier of a kind, of a tag or of a transformer. Its owner chooses
/// it; the planner only compares identifiers.
pub type Int = i64;

/// A set of tags.
pub type Variations = BTreeSet<Int>;

/// The tags that are left of `tags` once `taken` has been consumed, together
/// with those of `given`.
pub open spec fn replaced(tags: Set<Int>, taken: Set<Int>, given: Set<Int>) -> Set<Int> {
    tags.difference(taken).union(given)
}

/// Whether `x` is among the first `n` items of `s`.
spec fn listed(s: Seq<Int>, n: int, x: Int) -> bool {
    exists|j: int| 0 <= j < n && #[trigger] s[j] == x
}

/// A tag set holds finitely many tags.
pub proof fn lemma_finite(s: &Variations)
    ensures
        s@.finite(),
{
    broadcast use vstd::std_specs::btree::group_btree_axioms;
    broadcast use vstd::seq_lib::seq_to_set_is_finite;

    assert(s.iter().remaining().unref().to_set() == s@);
}

/// The tags of `s`, each once.
fn elements(s: &Variations) -> (v: Vec<Int>)
    ensures
        v@.to_set() == s@,
        v@.no_duplicates(),
        v@.len() == s@.len(),
{
    broadcast use vstd::std_specs::btree::group_btree_axioms;

    let mut v: Vec<Int> = Vec::new();
    let ghost all: Seq<Int> = s.iter().remaining().unref();
    for x in it: s.iter()
        invariant
            all == it.seq().unref(),
            all.to_set() == s@,
            all.no_duplicates(),
            all.len() == s@.len(),
            v@ == all.take(it.index()),
    {
        v.push(*x);
    }
    assert(v@ == all);
    v
}

/// Whether every tag of `a` is in `b`.
pub fn is_subset(a: &Variations, b: &Variations) -> (r: bool)
    ensures
        r == a@.subset_of(b@),
{
    broadcast use vstd::std_specs::btree::group_btree_axioms;

    let items = elements(a);
    let mut i: usize = 0;
    while i < items.len()
        invariant
            i <= items.len(),
            items@.to_set() == a@,
            forall|j: int| 0 <= j < i ==> b@.contains(#[trigger] items@[j]),
        decreases items.len() - i,
    {
        if !b.contains(&items[i]) {
            return false;
        }
        i += 1;
    }
    true
}

/// Whether `a` and `b` hold the same tags.
pub fn is_equal(a: &Variations, b: &Variations) -> (r: bool)
    ensures
        r == (a@ == b@),
{
    broadcast use vstd::std_specs::btree::group_btree_axioms;

    if a.len() != b.len() {
        return false;
    }
    let inside = is_subset(a, b);
    proof {
        if inside {
            lemma_finite(b);
            lemma_subset_equality(a@, b@);
        }
    }
    inside
}

/// How many tags `a` and `b` share.
pub fn shared(a: &Variations, b: &Variations) -> (n: usize)
    ensures
        n == a@.intersect(b@).len(),
        n <= a@.len(),
{
    broadcast use vstd::std_specs::btree::group_btree_axioms;

    let items = elements(a);
    let mut n: usize = 0;
    let mut i: usize = 0;
    let ghost mut seen: Set<Int> = Set::empty();
    while i < items.len()
        invariant
            i <= items.len(),
            items@.no_duplicates(),
            n <= i,
            seen.finite(),
            n == seen.len(),
            forall|x: Int| seen.contains(x) <==> (b@.contains(x) && listed(items@, i as int, x)),
        decreases items.len() - i,
    {
        if b.contains(&items[i]) {
            proof {
                seen = seen.insert(items@[i as int]);
            }
            n += 1;
        }
        i += 1;
    }
    proof {
        assert(seen =~= a@.intersect(b@));
    }
    n
}

/// `(tags - taken) | given`: what a value carries after a step that consumes
/// `taken` and hands out `given`.
pub fn replace(tags: &Variations, taken: &Variations, given: &Variations) -> (r: Variations)
    ensures
        r@ == replaced(tags@, taken@, given@),
{
    broadcast use vstd::std_specs::btree::group_btree_axioms;

    let mut r: Variations = BTreeSet::new();
    let kept = elements(tags);
    let mut i: usize = 0;
    while i < kept.len()
        invariant
            i <= kept.len(),
            forall|x: Int| r@.contains(x) <==> (!taken@.contains(x) && listed(kept@, i as int, x)),
        decreases kept.len() - i,
    {
        if !taken.contains(&kept[i]) {
            r.insert(kept[i]);
        }
        i += 1;
    }
    let ghost left = r@;
    let added = elements(given);
    let mut k: usize = 0;
    while k < added.len()
        invariant
            k <= added.len(),
            forall|x: Int| r@.contains(x) <==> (left.contains(x) || listed(added@, k as int, x)),
        decreases added.len() - k,
    {
        let ghost before = r@;
        let ghost done = k as int;
        r.insert(added[k]);
        k += 1;
        proof {
            assert forall|x: Int|
                r@.contains(x) <==> (left.contains(x) || listed(added@, k as int, x)) by {
                assert(before.contains(x) <==> (left.contains(x) || listed(added@, done, x)));
                assert(listed(added@, k as int, x) <==> (listed(added@, done, x) || x
                    == added@[done]));
            }
        }
    }
    proof {
        assert forall|x: Int| r@.contains(x) <==> left.union(given@).contains(x) by {
            assert(r@.contains(x) <==> (left.contains(x) || listed(added@, k as int, x)));
            assert(given@.contains(x) <==> added@.to_set().contains(x));
        }
    }
    r
}

} // verus!
