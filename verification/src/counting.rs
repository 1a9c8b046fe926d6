//! Counting the places of a sequence that hold a given key, or a member of a
//! given set. The per-vertex counters of the search are stated with these.

use vstd::prelude::*;

verus! {

/// The number of places of `s` that hold `x`.
pub open spec fn occurrences(s: Seq<usize>, x: usize) -> nat
    decreases s.len(),
{
    if s.len() == 0 {
        0
    } else {
        occurrences(s.drop_last(), x) + if s.last() == x {
            1nat
        } else {
            0nat
        }
    }
}

/// The number of places of `s` that hold a member of `among`.
pub open spec fn hits(s: Seq<usize>, among: Set<usize>) -> nat
    decreases s.len(),
{
    if s.len() == 0 {
        0
    } else {
        hits(s.drop_last(), among) + if among.contains(s.last()) {
            1nat
        } else {
            0nat
        }
    }
}

/// Appending `a` adds one occurrence of `a` and none of any other key.
pub proof fn lemma_occurrences_push(s: Seq<usize>, a: usize, x: usize)
    ensures
        occurrences(s.push(a), x) == occurrences(s, x) + if a == x {
            1nat
        } else {
            0nat
        },
{
    assert(s.push(a).drop_last() =~= s);
}

/// The first `k + 1` places hold what the first `k` hold and the place `k`.
pub proof fn lemma_occurrences_step(s: Seq<usize>, k: int, x: usize)
    requires
        0 <= k < s.len(),
    ensures
        occurrences(s.take(k + 1), x) == occurrences(s.take(k), x) + if s[k] == x {
            1nat
        } else {
            0nat
        },
{
    assert(s.take(k + 1).drop_last() =~= s.take(k));
}

/// A prefix holds `x` at most as often as the whole sequence, which holds it
/// at most as often as it is long.
pub proof fn lemma_occurrences_prefix(s: Seq<usize>, k: int, x: usize)
    requires
        0 <= k <= s.len(),
    ensures
        occurrences(s.take(k), x) <= occurrences(s, x),
        occurrences(s, x) <= s.len(),
    decreases s.len(),
{
    if s.len() == 0 {
        assert(s.take(k) =~= s);
    } else if k == s.len() {
        assert(s.take(k) =~= s);
        lemma_occurrences_prefix(s.drop_last(), 0, x);
    } else {
        assert(s.drop_last().take(k) =~= s.take(k));
        lemma_occurrences_prefix(s.drop_last(), k, x);
    }
}

/// A key occurs in a sequence exactly when the sequence contains it.
pub proof fn lemma_occurrences_contains(s: Seq<usize>, x: usize)
    ensures
        occurrences(s, x) > 0 <==> s.contains(x),
    decreases s.len(),
{
    if s.len() > 0 {
        lemma_occurrences_contains(s.drop_last(), x);
        if s.drop_last().contains(x) {
            let i = choose|i: int| 0 <= i < s.drop_last().len() && s.drop_last()[i] == x;
            assert(s[i] == x);
        }
        if s.contains(x) {
            let i = choose|i: int| 0 <= i < s.len() && s[i] == x;
            if i < s.len() - 1 {
                assert(s.drop_last()[i] == x);
            }
        }
    }
}

/// Hits are at most the length, and there is one exactly when some place holds
/// a member.
pub proof fn lemma_hits_bounds(s: Seq<usize>, among: Set<usize>)
    ensures
        hits(s, among) <= s.len(),
        hits(s, among) > 0 <==> exists|i: int| 0 <= i < s.len() && among.contains(#[trigger] s[i]),
    decreases s.len(),
{
    if s.len() > 0 {
        let t = s.drop_last();
        lemma_hits_bounds(t, among);
        if hits(t, among) > 0 {
            let i = choose|i: int| 0 <= i < t.len() && among.contains(#[trigger] t[i]);
            assert(among.contains(s[i]));
        }
        if exists|i: int| 0 <= i < s.len() && among.contains(#[trigger] s[i]) {
            let i = choose|i: int| 0 <= i < s.len() && among.contains(#[trigger] s[i]);
            if i < s.len() - 1 {
                assert(among.contains(t[i]));
            }
        }
    }
}

/// A new member adds its occurrences to the hits.
pub proof fn lemma_hits_insert(s: Seq<usize>, among: Set<usize>, x: usize)
    requires
        !among.contains(x),
    ensures
        hits(s, among.insert(x)) == hits(s, among) + occurrences(s, x),
    decreases s.len(),
{
    if s.len() > 0 {
        lemma_hits_insert(s.drop_last(), among, x);
    }
}

/// A member that leaves takes its occurrences from the hits.
pub proof fn lemma_hits_remove(s: Seq<usize>, among: Set<usize>, x: usize)
    requires
        among.contains(x),
    ensures
        hits(s, among.remove(x)) == hits(s, among) - occurrences(s, x),
{
    lemma_hits_insert(s, among.remove(x), x);
    assert(among.remove(x).insert(x) =~= among);
}

/// The hits of two disjoint sets add up.
pub proof fn lemma_hits_disjoint(s: Seq<usize>, a: Set<usize>, b: Set<usize>)
    requires
        a.disjoint(b),
    ensures
        hits(s, a.union(b)) == hits(s, a) + hits(s, b),
        hits(s, a) + hits(s, b) <= s.len(),
    decreases s.len(),
{
    if s.len() > 0 {
        lemma_hits_disjoint(s.drop_last(), a, b);
    }
}

} // verus!
