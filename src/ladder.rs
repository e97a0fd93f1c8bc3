use vstd::prelude::*;
use std::collections::BTreeMap;
use vstd::std_specs::btree::{increasing_seq, spec_keys_iter};
use vstd::std_specs::iter::IteratorSpec;
use vstd::std_specs::cmp::OrdSpec;

verus! {

/// Whether a sequence of prices is strictly increasing.
pub open spec fn strictly_increasing(s: Seq<i64>) -> bool {
    forall|i: int, j: int| 0 <= i < j < s.len() ==> s[i] < s[j]
}

/// The prices of a side, lowest first.
pub fn sorted_prices<V>(levels: &BTreeMap<i64, V>) -> (r: Vec<i64>)
    ensures
        strictly_increasing(r@),
        r@.to_set() == levels@.dom(),
        r@.len() == levels@.dom().len(),
{
    let ghost ks = spec_keys_iter(levels).remaining();
    let mut r: Vec<i64> = Vec::new();
    for k in it: levels.keys()
        invariant
            it.seq() == ks,
            r@ == ks.take(it.index() as int).map_values(|p: &i64| *p),
    {
        r.push(*k);
    }
    proof {
        assert(ks.unref() =~= r@);
        assert(vstd::laws_cmp::obeys_cmp::<&i64>());
        assert(increasing_seq(ks));
        assert forall|i: int, j: int| 0 <= i < j < r@.len() implies r@[i] < r@[j] by {
            assert(OrdSpec::cmp_spec(&ks[i], &ks[j]) is Less);
        }
    }
    r
}

/// The keys of a map, in any order.
pub fn keys_of<K: Copy + Ord, V>(m: &BTreeMap<K, V>) -> (r: Vec<K>)
    requires
        vstd::laws_cmp::obeys_cmp::<K>(),
    ensures
        r@.to_set() == m@.dom(),
        r@.len() == m@.dom().len(),
{
    let ghost ks = spec_keys_iter(m).remaining();
    let mut r: Vec<K> = Vec::new();
    for k in it: m.keys()
        invariant
            it.seq() == ks,
            r@ == ks.take(it.index() as int).map_values(|p: &K| *p),
    {
        r.push(*k);
    }
    proof {
        assert(ks.unref() =~= r@);
    }
    r
}

/// The prices of a set above `p`.
pub open spec fn prices_above(s: Set<i64>, p: i64) -> Set<i64> {
    s.filter(|q: i64| q > p)
}

/// The prices of a set below `p`.
pub open spec fn prices_below(s: Set<i64>, p: i64) -> Set<i64> {
    s.filter(|q: i64| q < p)
}

/// In the ascending list of a set's prices, the price at `k` has `k` prices
/// below it and the rest above it.
pub proof fn lemma_rank(r: Seq<i64>, s: Set<i64>, k: int)
    requires
        strictly_increasing(r),
        r.to_set() == s,
        0 <= k < r.len(),
    ensures
        prices_below(s, r[k]).len() == k,
        prices_above(s, r[k]).len() == r.len() - 1 - k,
{
    let lo = r.subrange(0, k);
    let hi = r.subrange(k + 1, r.len() as int);
    assert(lo.no_duplicates());
    assert(hi.no_duplicates());
    lo.unique_seq_to_set();
    hi.unique_seq_to_set();
    assert forall|q: i64| prices_below(s, r[k]).contains(q) <==> lo.to_set().contains(q) by {
        if prices_below(s, r[k]).contains(q) {
            assert(r.to_set().contains(q));
            let w = choose|w: int| 0 <= w < r.len() && r[w] == q;
            if w >= k {
                if w > k {
                    assert(r[k] < r[w]);
                }
            }
            assert(lo[w] == q);
        }
        if lo.to_set().contains(q) {
            let w = choose|w: int| 0 <= w < lo.len() && lo[w] == q;
            assert(r[w] == q);
            assert(r.to_set().contains(q));
        }
    }
    assert forall|q: i64| prices_above(s, r[k]).contains(q) <==> hi.to_set().contains(q) by {
        if prices_above(s, r[k]).contains(q) {
            assert(r.to_set().contains(q));
            let w = choose|w: int| 0 <= w < r.len() && r[w] == q;
            if w <= k {
                if w < k {
                    assert(r[w] < r[k]);
                }
            }
            assert(hi[w - k - 1] == q);
        }
        if hi.to_set().contains(q) {
            let w = choose|w: int| 0 <= w < hi.len() && hi[w] == q;
            assert(r[w + k + 1] == q);
            assert(r.to_set().contains(r[w + k + 1]));
        }
    }
    assert(prices_below(s, r[k]) =~= lo.to_set());
    assert(prices_above(s, r[k]) =~= hi.to_set());
}

/// Of two prices of a set, the higher has fewer prices of the set above it.
pub proof fn lemma_rank_above_unique(s: Set<i64>, lo: i64, hi: i64)
    requires
        s.finite(),
        s.contains(lo),
        s.contains(hi),
        lo < hi,
    ensures
        prices_above(s, hi).len() < prices_above(s, lo).len(),
{
    let a2 = prices_above(s, hi);
    let a1 = prices_above(s, lo);
    assert(a2.insert(hi).subset_of(a1));
    vstd::set_lib::lemma_len_subset(a2.insert(hi), a1);
    assert(!a2.contains(hi));
}

/// Of two prices of a set, the lower has fewer prices of the set below it.
pub proof fn lemma_rank_below_unique(s: Set<i64>, lo: i64, hi: i64)
    requires
        s.finite(),
        s.contains(lo),
        s.contains(hi),
        lo < hi,
    ensures
        prices_below(s, lo).len() < prices_below(s, hi).len(),
{
    let b1 = prices_below(s, lo);
    let b2 = prices_below(s, hi);
    assert(b1.insert(lo).subset_of(b2));
    vstd::set_lib::lemma_len_subset(b1.insert(lo), b2);
    assert(!b1.contains(lo));
}

} // verus!
