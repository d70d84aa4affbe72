//! The sorted-position list: an ascending vector of bucket-space positions,
//! with the resolution rule of the ring (smallest position at or after the
//! hashed value, falling back to the largest position), sorted insertion, and
//! the lemmas about filtering positions out.

use vstd::prelude::*;
use vstd::seq_lib::group_to_multiset_ensures;
use vstd::seq_lib::lemma_multiset_commutative;

verus! {

/// The list is ascending; equal neighbours are allowed.
pub open spec fn sorted_ascending(s: Seq<u64>) -> bool {
    forall|i: int, j: int| 0 <= i < j < s.len() ==> s[i] <= s[j]
}

/// The index of the first entry at or above `h`, or `s.len()` if every entry
/// is below `h`.
pub open spec fn first_geq(s: Seq<u64>, h: u64) -> int
    decreases s.len(),
{
    if s.len() == 0 {
        0
    } else if s[0] >= h {
        0
    } else {
        1 + first_geq(s.drop_first(), h)
    }
}

pub proof fn lemma_first_geq(s: Seq<u64>, h: u64)
    ensures
        0 <= first_geq(s, h) <= s.len(),
        forall|j: int| 0 <= j < first_geq(s, h) ==> s[j] < h,
        first_geq(s, h) < s.len() ==> s[first_geq(s, h)] >= h,
    decreases s.len(),
{
    if s.len() > 0 && s[0] < h {
        let d = s.drop_first();
        lemma_first_geq(d, h);
        assert forall|j: int| 0 <= j < first_geq(s, h) implies s[j] < h by {
            if j > 0 {
                assert(d[j - 1] == s[j]);
            }
        }
    }
}

/// The position a hashed value resolves to: the first entry at or above it,
/// and the last entry when the value lies beyond every entry. The list wraps
/// to its last entry there, not to its first; this keeps resolution stable
/// with respect to existing assignments.
pub open spec fn resolve_pos(s: Seq<u64>, h: u64) -> u64
    recommends
        s.len() > 0,
{
    if first_geq(s, h) < s.len() {
        s[first_geq(s, h)]
    } else {
        s[s.len() - 1]
    }
}

/// A non-empty list resolves every value to one of its own entries.
pub proof fn lemma_resolve_pos_in_list(s: Seq<u64>, h: u64)
    requires
        s.len() > 0,
    ensures
        s.contains(resolve_pos(s, h)),
{
    lemma_first_geq(s, h);
    if first_geq(s, h) < s.len() {
        assert(s[first_geq(s, h)] == resolve_pos(s, h));
    } else {
        assert(s[s.len() - 1] == resolve_pos(s, h));
    }
}

/// Inserting anywhere in a sequence adds the element to its multiset.
pub proof fn lemma_insert_to_multiset(s: Seq<u64>, i: int, x: u64)
    requires
        0 <= i <= s.len(),
    ensures
        s.insert(i, x).to_multiset() == s.to_multiset().insert(x),
{
    broadcast use group_to_multiset_ensures;

    let a = s.subrange(0, i);
    let b = s.subrange(i, s.len() as int);
    assert(s.insert(i, x) == a.push(x) + b);
    assert(s =~= a + b);
    lemma_multiset_commutative(a.push(x), b);
    lemma_multiset_commutative(a, b);
    assert(a.push(x).to_multiset() =~= a.to_multiset().insert(x));
    assert(s.insert(i, x).to_multiset() =~= s.to_multiset().insert(x));
}

/// Inserts `h` into the ascending list `v`, keeping it ascending.
pub fn insert_sorted(v: &mut Vec<u64>, h: u64)
    requires
        sorted_ascending(old(v)@),
    ensures
        sorted_ascending(final(v)@),
        final(v)@.to_multiset() == old(v)@.to_multiset().insert(h),
        final(v)@.len() == old(v)@.len() + 1,
        forall|x: u64| final(v)@.contains(x) <==> (old(v)@.contains(x) || x == h),
{
    let mut i: usize = 0;
    while i < v.len() && v[i] < h
        invariant
            0 <= i <= v@.len(),
            forall|j: int| 0 <= j < i ==> v@[j] < h,
            sorted_ascending(v@),
            v@ == old(v)@,
        decreases v@.len() - i,
    {
        i += 1;
    }
    v.insert(i, h);
    proof {
        broadcast use group_to_multiset_ensures;

        old(v)@.insert_ensures(i as int, h);
        lemma_insert_to_multiset(old(v)@, i as int, h);
        assert forall|a: int, b: int| 0 <= a < b < v@.len() implies v@[a] <= v@[b] by {
            if b < i {
            } else if a < i && b == i {
            } else if a < i && b > i {
                assert(v@[b] == old(v)@[b - 1]);
                assert(old(v)@[b - 1] >= h);
            } else if a == i {
                assert(v@[b] == old(v)@[b - 1]);
                assert(old(v)@[b - 1] >= old(v)@[i as int]);
            } else {
                assert(v@[a] == old(v)@[a - 1]);
                assert(v@[b] == old(v)@[b - 1]);
            }
        }
        assert forall|x: u64| v@.contains(x) <==> (old(v)@.contains(x) || x == h) by {
            assert(v@.to_multiset().count(x) > 0 <==> old(v)@.to_multiset().count(x) > 0 || x
                == h);
        }
    }
}

/// Every entry of a filtered sequence is an entry of the sequence.
pub proof fn lemma_filter_elements(s: Seq<u64>, p: spec_fn(u64) -> bool)
    ensures
        forall|i: int| 0 <= i < s.filter(p).len() ==> s.contains(#[trigger] s.filter(p)[i]),
    decreases s.len(),
{
    reveal(Seq::filter);
    if s.len() > 0 {
        let d = s.drop_last();
        lemma_filter_elements(d, p);
        assert forall|i: int| 0 <= i < s.filter(p).len() implies s.contains(
            #[trigger] s.filter(p)[i],
        ) by {
            if i < d.filter(p).len() {
                assert(d.contains(d.filter(p)[i]));
                let w = choose|w: int| 0 <= w < d.len() && d[w] == d.filter(p)[i];
                assert(s[w] == s.filter(p)[i]);
            } else {
                assert(s.filter(p)[i] == s.last());
                assert(s[s.len() - 1] == s.last());
            }
        }
    }
}

/// Filtering keeps a sequence ascending.
pub proof fn lemma_filter_sorted(s: Seq<u64>, p: spec_fn(u64) -> bool)
    requires
        sorted_ascending(s),
    ensures
        sorted_ascending(s.filter(p)),
    decreases s.len(),
{
    reveal(Seq::filter);
    if s.len() > 0 {
        let d = s.drop_last();
        lemma_filter_sorted(d, p);
        lemma_filter_elements(d, p);
        if p(s.last()) {
            let f = d.filter(p);
            assert forall|a: int, b: int| 0 <= a < b < f.push(s.last()).len() implies f.push(
                s.last(),
            )[a] <= f.push(s.last())[b] by {
                if b < f.len() {
                } else {
                    assert(f.push(s.last())[b] == s.last());
                    assert(d.contains(f[a]));
                    let w = choose|w: int| 0 <= w < d.len() && d[w] == f[a];
                    assert(s[w] <= s.last());
                }
            }
        }
    }
}

/// Filtering by a predicate that every element satisfies keeps the sequence.
pub proof fn lemma_filter_all_true(s: Seq<u64>, p: spec_fn(u64) -> bool)
    requires
        forall|x: u64| #[trigger] p(x),
    ensures
        s.filter(p) == s,
    decreases s.len(),
{
    reveal(Seq::filter);
    if s.len() > 0 {
        lemma_filter_all_true(s.drop_last(), p);
        assert(s.filter(p) =~= s);
    } else {
        assert(s.filter(p) =~= s);
    }
}

/// Filtering past a pushed element keeps it exactly when it satisfies the
/// predicate.
pub proof fn lemma_filter_push(s: Seq<u64>, x: u64, p: spec_fn(u64) -> bool)
    ensures
        s.push(x).filter(p) == (if p(x) {
            s.filter(p).push(x)
        } else {
            s.filter(p)
        }),
{
    reveal(Seq::filter);
    assert(s.push(x).drop_last() =~= s);
    assert(s.push(x).last() == x);
}

/// Filtering a filtered sequence filters by the conjunction.
pub proof fn lemma_filter_filter(s: Seq<u64>, p: spec_fn(u64) -> bool, q: spec_fn(u64) -> bool)
    ensures
        s.filter(p).filter(q) == s.filter(|x: u64| p(x) && q(x)),
    decreases s.len(),
{
    reveal(Seq::filter);
    let pq = |x: u64| p(x) && q(x);
    if s.len() == 0 {
        assert(s.filter(p).filter(q) =~= s.filter(pq));
    } else {
        let d = s.drop_last();
        lemma_filter_filter(d, p, q);
        if p(s.last()) {
            assert(s.filter(p) == d.filter(p).push(s.last()));
            assert(d.filter(p).push(s.last()).drop_last() =~= d.filter(p));
            assert(d.filter(p).push(s.last()).last() == s.last());
        }
        assert(s.filter(p).filter(q) =~= s.filter(pq));
    }
}

} // verus!
