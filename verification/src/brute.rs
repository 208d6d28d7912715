//! Exact k-NN by linear scan: the recall reference every index is judged
//! against, and the honest baseline any index must actually beat.

use vstd::prelude::*;

use crate::bits::{at_most, is_nan, precedes};
use crate::dataset::FloatVectors;
use crate::scorer::{covers_all, RouteScorer};
use crate::topk::{
    in_order, kept, law_keeps_smallest, lemma_all_kept, lemma_kept_in_order, lemma_kept_offered, lemma_placed, pair_le,
    placed, TopK,
};

verus! {

/// The distances of the first `n` points from a query, in the order of the
/// points.
pub open spec fn scanned<S: RouteScorer>(scorer: &S, query: Seq<u32>, n: nat) -> Seq<(u32, u32)> {
    Seq::new(n, |i: int| (scorer.distance(query, i as u32), i as u32))
}

/// The exact k nearest (distance, id) of one query, in ascending order.
pub fn search_one<S: RouteScorer>(base: &S, n: usize, query: &[u32], k: usize) -> (top: Vec<(u32, u32)>)
    requires
        k > 0,
        n <= 0x1_0000_0000,
        covers_all(base, query@, n as nat),
    ensures
        top@ == kept(scanned(base, query@, n as nat), k as nat),
{
    let mut topk = TopK::new(k);
    let ghost all = scanned(base, query@, n as nat);
    let mut i: usize = 0;
    assert(all.take(0) =~= Seq::empty());
    while i < n
        invariant
            i <= n <= 0x1_0000_0000,
            covers_all(base, query@, n as nat),
            all == scanned(base, query@, n as nat),
            topk.wf(),
            topk.capacity() == k,
            topk@ == kept(all.take(i as int), k as nat),
        decreases n - i,
    {
        let id: u32 = i as u32;
        let d: u32 = base.score(query, id);
        topk.push(d, id);
        proof {
            assert(all.take(i + 1).drop_last() =~= all.take(i as int));
            assert(all.take(i + 1).last() == (d, id));
        }
        i += 1;
    }
    assert(all.take(i as int) =~= all);
    topk.into_sorted()
}

/// Returns, per query, the exact k nearest (distance, id) in ascending order.
pub fn search<S: RouteScorer>(base: &S, n: usize, queries: &FloatVectors, k: usize) -> (results: Vec<
    Vec<(u32, u32)>,
>)
    requires
        k > 0,
        n <= 0x1_0000_0000,
        queries.wf(),
        forall|q: int| 0 <= q < queries.count ==> covers_all(base, #[trigger] queries.row(q), n as nat),
    ensures
        results@.len() == queries.count,
        forall|q: int|
            0 <= q < queries.count ==> (#[trigger] results@[q])@ == kept(
                scanned(base, queries.row(q), n as nat),
                k as nat,
            ),
{
    let mut results: Vec<Vec<(u32, u32)>> = Vec::new();
    let mut q: usize = 0;
    while q < queries.count
        invariant
            q <= queries.count,
            k > 0,
            n <= 0x1_0000_0000,
            queries.wf(),
            forall|q: int| 0 <= q < queries.count ==> covers_all(base, #[trigger] queries.row(q), n as nat),
            results@.len() == q,
            forall|i: int|
                0 <= i < q ==> (#[trigger] results@[i])@ == kept(scanned(base, queries.row(i), n as nat), k as nat),
        decreases queries.count - q,
    {
        assert(covers_all(base, queries.row(q as int), n as nat));
        results.push(search_one(base, n, queries.get(q), k));
        q += 1;
    }
    results
}

/// The scan is exact: while the distances are numbers, no point that is left
/// out is closer than any that is returned; and each returned distance is
/// that of its point.
pub proof fn law_scan_is_exact<S: RouteScorer>(base: &S, query: Seq<u32>, n: nat, k: nat)
    requires
        k > 0,
        n <= 0x1_0000_0000,
        forall|id: u32| id < n ==> !is_nan(#[trigger] base.distance(query, id)),
    ensures
        ({
            let top = kept(scanned(base, query, n), k);
            &&& in_order(top)
            &&& top.len() == (if n < k { n } else { k })
            &&& forall|j: int|
                0 <= j < top.len() ==> (#[trigger] top[j]).1 < n && top[j].0 == base.distance(query, top[j].1)
            &&& forall|id: u32, j: int|
                id < n && !top.contains((#[trigger] base.distance(query, id), id)) && 0 <= j < top.len() ==> at_most(
                    (#[trigger] top[j]).0,
                    base.distance(query, id),
                )
        }),
{
    let all = scanned(base, query, n);
    let top = kept(all, k);
    assert forall|i: int| 0 <= i < all.len() implies !is_nan(#[trigger] all[i].0) by {
        assert(!is_nan(base.distance(query, i as u32)));
    }
    law_keeps_smallest(all, k);
    crate::topk::lemma_kept_offered(all, k);
    assert forall|j: int| 0 <= j < top.len() implies (#[trigger] top[j]).1 < n && top[j].0 == base.distance(
        query,
        top[j].1,
    ) by {
        assert(all.contains(top[j]));
    }
    assert forall|id: u32, j: int|
        id < n && !top.contains((#[trigger] base.distance(query, id), id)) && 0 <= j < top.len() implies at_most(
        (#[trigger] top[j]).0,
        base.distance(query, id),
    ) by {
        let e = (base.distance(query, id), id);
        assert(all[id as int] == e);
        all.to_multiset_ensures();
        top.to_multiset_ensures();
        assert(all.contains(e));
        assert(all.to_multiset().count(e) > 0);
        assert(!top.contains(e));
        assert(top.to_multiset().count(e) == 0);
    }
}

/// Of points at the same distance, the scan prefers the ones that come first.
pub proof fn law_scan_prefers_earlier_points<S: RouteScorer>(
    base: &S,
    query: Seq<u32>,
    n: nat,
    k: nat,
    id: u32,
    j: int,
)
    requires
        k > 0,
        n <= 0x1_0000_0000,
        forall|id: u32| id < n ==> !is_nan(#[trigger] base.distance(query, id)),
        id < n,
        0 <= j < kept(scanned(base, query, n), k).len(),
        !kept(scanned(base, query, n), k).contains((base.distance(query, id), id)),
        kept(scanned(base, query, n), k)[j].0 == base.distance(query, id),
    ensures
        kept(scanned(base, query, n), k)[j].1 < id,
{
    let all = scanned(base, query, n);
    assert(all.take(n as int) =~= all);
    lemma_scan_ties(base, query, n, k, n, id, j);
}

proof fn lemma_scan_ties<S: RouteScorer>(base: &S, query: Seq<u32>, n: nat, k: nat, m: nat, id: u32, j: int)
    requires
        k > 0,
        m <= n <= 0x1_0000_0000,
        forall|id: u32| id < n ==> !is_nan(#[trigger] base.distance(query, id)),
        id < m,
        0 <= j < kept(scanned(base, query, n).take(m as int), k).len(),
        !kept(scanned(base, query, n).take(m as int), k).contains((base.distance(query, id), id)),
        kept(scanned(base, query, n).take(m as int), k)[j].0 == base.distance(query, id),
    ensures
        kept(scanned(base, query, n).take(m as int), k)[j].1 < id,
    decreases m,
{
    let all = scanned(base, query, n);
    let items = all.take(m as int);
    let init = all.take(m - 1);
    let e = items.last();
    let gone = (base.distance(query, id), id);
    assert(items.drop_last() =~= init);
    assert(e == all[m - 1]);
    let before = kept(init, k);
    let after = kept(items, k);
    lemma_kept_in_order(init, k);
    lemma_kept_in_order(items, k);
    lemma_kept_offered(init, k);
    lemma_kept_offered(items, k);
    assert(items.contains(after[j]));
    let a = choose|a: int| 0 <= a < items.len() && items[a] == after[j];
    assert(all[a] == after[j]);
    let joined = before.len() < k;
    let replaced = !joined && precedes(e.0, before.last().0);
    if joined {
        lemma_placed(before, e);
        let at = choose|at: int| 0 <= at <= before.len() && placed(before, e) == before.insert(at, e);
        if gone == e {
            assert(after[at] == gone);
        }
        if before.contains(gone) {
            let c = choose|c: int| 0 <= c < before.len() && before[c] == gone;
            if c < at {
                assert(after[c] == gone);
            } else {
                assert(after[c + 1] == gone);
            }
        }
        lemma_kept_all(init, k, id as int);
        assert(init[id as int] == gone);
    } else if replaced {
        let rest = before.drop_last();
        lemma_placed(rest, e);
        let at = choose|at: int| 0 <= at <= rest.len() && placed(rest, e) == rest.insert(at, e);
        if gone == e {
            assert(after[at] == gone);
        }
        assert(id < m - 1);
        if after[j] != e {
            let c = if j < at { j } else { j - 1 };
            assert(before[c] == after[j]);
            if before.contains(gone) {
                let x = choose|x: int| 0 <= x < before.len() && before[x] == gone;
                if x < rest.len() {
                    if x < at {
                        assert(after[x] == gone);
                    } else {
                        assert(after[x + 1] == gone);
                    }
                }
                assert(pair_le(before[c], before[x]));
                if after[j].1 == id {
                    assert(after.contains(gone));
                }
            } else {
                lemma_scan_ties(base, query, n, k, (m - 1) as nat, id, c);
            }
        } else {
            // the new pair is closer than everything that left
            if before.contains(gone) {
                let x = choose|x: int| 0 <= x < before.len() && before[x] == gone;
                if x < rest.len() {
                    if x < at {
                        assert(after[x] == gone);
                    } else {
                        assert(after[x + 1] == gone);
                    }
                }
                assert(before.last() == gone);
            } else {
                lemma_scan_so_far(base, query, n, k, (m - 1) as nat, id, before.len() - 1);
            }
        }
    } else {
        if gone != e {
            assert(id < m - 1);
            lemma_scan_ties(base, query, n, k, (m - 1) as nat, id, j);
        } else {
            assert(before.contains(after[j]));
            assert(init.contains(before[j]));
            let c = choose|c: int| 0 <= c < init.len() && init[c] == before[j];
            assert(all[c] == before[j]);
        }
    }
}

/// While there is room, everything is kept.
proof fn lemma_kept_all(items: Seq<(u32, u32)>, k: nat, i: int)
    requires
        k > 0,
        kept(items, k).len() < k,
        0 <= i < items.len(),
    ensures
        kept(items, k).contains(items[i]),
{
    lemma_kept_in_order(items, k);
    lemma_all_kept(items, k);
    items.to_multiset_ensures();
    kept(items, k).to_multiset_ensures();
    assert(items.contains(items[i]));
    assert(items.to_multiset().count(items[i]) > 0);
}

/// What the first points left out is no closer than what they left in.
proof fn lemma_scan_so_far<S: RouteScorer>(
    base: &S,
    query: Seq<u32>,
    n: nat,
    k: nat,
    m: nat,
    id: u32,
    j: int,
)
    requires
        k > 0,
        id < m <= n <= 0x1_0000_0000,
        forall|id: u32| id < n ==> !is_nan(#[trigger] base.distance(query, id)),
        0 <= j < kept(scanned(base, query, n).take(m as int), k).len(),
        !kept(scanned(base, query, n).take(m as int), k).contains((base.distance(query, id), id)),
    ensures
        at_most(kept(scanned(base, query, n).take(m as int), k)[j].0, base.distance(query, id)),
{
    assert(scanned(base, query, n).take(m as int) =~= scanned(base, query, m));
    law_scan_is_exact(base, query, m, k);
}

} // verus!
