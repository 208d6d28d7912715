//! Recall and latency reporting shared by all benchmarks.

use vstd::prelude::*;

use crate::bits::{rank_double, total_rank_double};
use crate::dataset::{lemma_row_bounds, IdLists};
use crate::select::holds;

verus! {

/// How many ids are both results and true neighbors. An id that is returned
/// twice is one hit.
pub open spec fn hits_in(results: Seq<u32>, truth: Seq<u32>) -> nat {
    results.to_set().intersect(truth.to_set()).len()
}

/// How many results of one query count: no more than `k`.
pub open spec fn considered(results: Seq<u32>, k: nat) -> nat {
    if results.len() < k {
        results.len()
    } else {
        k
    }
}

/// The hits of the first `queries` queries among their top-k.
pub open spec fn hits(results: Seq<Vec<u32>>, gt: IdLists, k: nat, queries: nat) -> nat
    decreases queries,
{
    if queries == 0 {
        0
    } else {
        let q = queries - 1;
        hits(results, gt, k, q as nat) + hits_in(
            results[q]@.take(considered(results[q]@, k) as int),
            gt.row(q).take(k as int),
        )
    }
}

/// Mean recall@k over queries, |top-k results intersected with top-k ground
/// truth| / k, as the number of ids in all intersections over the number that
/// there could be. `results` may cover only the first N queries of the ground truth.
///
/// With ties at the k-th position even an exact scan can score marginally
/// below 1 against a fixed ground-truth file.
pub fn recall_at_k(results: &Vec<Vec<u32>>, gt: &IdLists, k: usize) -> (r: (usize, usize))
    requires
        gt.wf(),
        k <= gt.dim,
        results@.len() <= gt.count,
        results@.len() > 0,
    ensures
        r.0 == hits(results@, *gt, k as nat, results@.len()),
        r.1 == results@.len() * k,
{
    let mut found: usize = 0;
    let mut q: usize = 0;
    proof {
        law_recall_is_a_fraction(results@, *gt, k as nat, results@.len());
        vstd::arithmetic::mul::lemma_mul_upper_bound(
            results@.len() as int,
            gt.count as int,
            k as int,
            gt.dim as int,
        );
    }
    while q < results.len()
        invariant
            q <= results@.len(),
            gt.wf(),
            k <= gt.dim,
            results@.len() <= gt.count,
            results@.len() * k <= usize::MAX,
            found == hits(results@, *gt, k as nat, q as nat),
        decreases results@.len() - q,
    {
        let row = gt.get(q);
        let truth = vstd::slice::slice_subrange(row, 0, k);
        let ghost t = gt.row(q as int).take(k as int);
        assert(truth@ =~= t);
        let res = &results[q];
        let n: usize = if res.len() < k { res.len() } else { k };
        proof {
            law_recall_is_a_fraction(results@, *gt, k as nat, q as nat);
            lemma_row_bounds(q as int, k as int, results@.len() as int);
        }
        let ghost before = found;
        let mut i: usize = 0;
        proof {
            assert(res@.take(0) =~= Seq::empty());
            lemma_hits_none(t);
        }
        while i < n
            invariant
                i <= n <= res@.len(),
                n <= k,
                before + k <= usize::MAX,
                truth@ == t,
                found == before + hits_in(res@.take(i as int), t),
            decreases n - i,
        {
            let id: u32 = res[i];
            let head = vstd::slice::slice_subrange(res.as_slice(), 0, i);
            proof {
                assert(head@ =~= res@.take(i as int));
                assert(res@.take(i + 1) =~= res@.take(i as int).push(id));
                lemma_hits_push(res@.take(i as int), t, id);
                lemma_hits_bound(res@.take(i as int), t);
            }
            if !holds(head, id) && holds(truth, id) {
                found += 1;
            }
            i += 1;
        }
        q += 1;
    }
    (found, results.len() * k)
}

/// Recall lies between 0 and 1.
pub proof fn law_recall_is_a_fraction(results: Seq<Vec<u32>>, gt: IdLists, k: nat, queries: nat)
    requires
        queries <= results.len(),
    ensures
        hits(results, gt, k, queries) <= queries * k,
    decreases queries,
{
    if queries > 0 {
        let q = queries - 1;
        law_recall_is_a_fraction(results, gt, k, q as nat);
        lemma_hits_bound(results[q]@.take(considered(results[q]@, k) as int), gt.row(q).take(k as int));
        lemma_row_bounds(q, k as int, queries as int);
    }
}

proof fn lemma_hits_bound(results: Seq<u32>, truth: Seq<u32>)
    ensures
        hits_in(results, truth) <= results.len(),
{
    vstd::seq_lib::seq_to_set_is_finite(results);
    vstd::set_lib::lemma_len_intersect(results.to_set(), truth.to_set());
    results.lemma_cardinality_of_set();
}

proof fn lemma_hits_none(truth: Seq<u32>)
    ensures
        hits_in(Seq::empty(), truth) == 0,
{
    assert(Seq::<u32>::empty().to_set().intersect(truth.to_set()) =~= Set::empty());
}

/// A further result is a hit if it is a true neighbor and new.
proof fn lemma_hits_push(results: Seq<u32>, truth: Seq<u32>, id: u32)
    ensures
        hits_in(results.push(id), truth) == hits_in(results, truth) + (if truth.contains(id) && !results.contains(
            id,
        ) {
            1nat
        } else {
            0nat
        }),
{
    let more = results.push(id);
    let before = results.to_set().intersect(truth.to_set());
    let after = more.to_set().intersect(truth.to_set());
    vstd::seq_lib::seq_to_set_is_finite(results);
    assert(more.to_set() =~= results.to_set().insert(id)) by {
        assert forall|x: u32| more.contains(x) implies results.contains(x) || x == id by {
            let i = choose|i: int| 0 <= i < more.len() && more[i] == x;
            if i < results.len() {
                assert(results[i] == x);
            }
        }
        assert forall|x: u32| results.contains(x) implies more.contains(x) by {
            let i = choose|i: int| 0 <= i < results.len() && results[i] == x;
            assert(more[i] == x);
        }
        assert(more[results.len() as int] == id);
    }
    if truth.contains(id) && !results.contains(id) {
        assert(after =~= before.insert(id));
    } else {
        assert(after =~= before);
    }
}

/// Where every query returns its top-k of the ground truth, each id once and
/// in any order, recall is 1.
pub proof fn law_true_neighbors_have_full_recall(results: Seq<Vec<u32>>, gt: IdLists, k: nat, queries: nat)
    requires
        queries <= results.len(),
        forall|q: int| 0 <= q < queries ==> (#[trigger] results[q])@.len() == k && results[q]@.no_duplicates(),
        forall|q: int, i: int|
            0 <= q < queries && 0 <= i < k ==> gt.row(q).take(k as int).contains(#[trigger] results[q]@[i]),
    ensures
        hits(results, gt, k, queries) == queries * k,
    decreases queries,
{
    if queries > 0 {
        let q = queries - 1;
        let found = results[q]@;
        let truth = gt.row(q).take(k as int);
        law_true_neighbors_have_full_recall(results, gt, k, q as nat);
        assert(found.len() == k);
        assert(found.take(k as int) =~= found);
        assert(found.to_set().intersect(truth.to_set()) =~= found.to_set()) by {
            assert forall|x: u32| found.contains(x) implies truth.contains(x) by {
                let i = choose|i: int| 0 <= i < found.len() && found[i] == x;
                assert(truth.contains(results[q]@[i]));
            }
        }
        found.unique_seq_to_set();
        lemma_row_bounds(q, k as int, queries as int);
    } else {
        vstd::arithmetic::mul::lemma_mul_basics(k as int);
    }
}

/// A query that returns one id only, however often, has at most one hit.
pub proof fn law_repeated_ids_hit_once(results: Seq<u32>, truth: Seq<u32>, id: u32)
    requires
        forall|i: int| 0 <= i < results.len() ==> #[trigger] results[i] == id,
    ensures
        hits_in(results, truth) <= 1,
{
    let all = results.to_set().intersect(truth.to_set());
    assert(all.subset_of(set![id]));
    vstd::set_lib::lemma_len_subset(all, set![id]);
}

/// Latencies in microseconds, as double-precision bit patterns.
pub struct LatencyStats {
    pub mean_us: u64,
    pub p50_us: u64,
    pub p90_us: u64,
    pub p99_us: u64,
}

/// `s` with `x` in its place, behind the samples that are no greater.
pub open spec fn filed(s: Seq<u64>, x: u64) -> Seq<u64>
    decreases s.len(),
{
    if s.len() == 0 {
        seq![x]
    } else if rank_double(s.last()) <= rank_double(x) {
        s.push(x)
    } else {
        filed(s.drop_last(), x).push(s.last())
    }
}

/// The samples in ascending order.
pub open spec fn sorted(samples: Seq<u64>) -> Seq<u64>
    decreases samples.len(),
{
    if samples.len() == 0 {
        Seq::empty()
    } else {
        filed(sorted(samples.drop_last()), samples.last())
    }
}

/// The place of a percentile among `n` sorted samples: the smallest place
/// that has at least `p` percent of the samples at or before it.
pub open spec fn percentile_index(n: int, p: int) -> int {
    (n * p + 99) / 100 - 1
}

/// How many samples are at most `x`.
pub open spec fn at_or_below(samples: Seq<u64>, x: u64) -> nat
    decreases samples.len(),
{
    if samples.len() == 0 {
        0
    } else {
        at_or_below(samples.drop_last(), x) + (if rank_double(samples.last()) <= rank_double(x) { 1nat } else { 0nat })
    }
}

/// `p` percent of `n`, rounded up.
pub open spec fn share(n: int, p: int) -> int {
    (n * p + 99) / 100
}

/// `m` is what `mean` may give for these samples.
pub open spec fn averages<A: Fn(&[u64]) -> u64>(mean: &A, samples: Seq<u64>, m: u64) -> bool {
    exists|t: &[u64]| t@ == samples && #[trigger] call_ensures(*mean, (t,), m)
}

/// Files a sample.
fn file(s: &mut Vec<u64>, x: u64)
    ensures
        final(s)@ == filed(old(s)@, x),
{
    let ghost before = s@;
    let mut at: usize = s.len();
    let r: i128 = total_rank_double(x);
    assert(before.take(at as int) =~= before);
    assert(filed(before, x) =~= filed(before, x) + before.skip(at as int));
    while at > 0 && total_rank_double(s[at - 1]) > r
        invariant
            at <= s@.len(),
            s@ == before,
            r == rank_double(x),
            filed(before, x) == filed(before.take(at as int), x) + before.skip(at as int),
        decreases at,
    {
        proof {
            let head = before.take(at as int);
            assert(head.last() == before[at - 1]);
            assert(head.drop_last() =~= before.take(at - 1));
            assert(filed(head.drop_last(), x).push(head.last()) + before.skip(at as int) =~= filed(
                before.take(at - 1),
                x,
            ) + before.skip(at - 1));
        }
        at -= 1;
    }
    proof {
        let head = before.take(at as int);
        if at > 0 {
            assert(head.last() == before[at - 1]);
        } else {
            assert(seq![x] =~= head.push(x));
        }
        assert(before.insert(at as int, x) =~= head.push(x) + before.skip(at as int));
    }
    s.insert(at, x);
}

/// Mean and percentiles of latency samples. `mean` is given the samples in
/// ascending order.
pub fn latency_stats<A: Fn(&[u64]) -> u64>(samples_us: Vec<u64>, mean: &A) -> (stats: LatencyStats)
    requires
        samples_us@.len() > 0,
        forall|s: &[u64]| #[trigger] call_requires(*mean, (s,)),
    ensures
        ({
            let s = sorted(samples_us@);
            let n = samples_us@.len() as int;
            &&& stats.p50_us == s[percentile_index(n, 50)]
            &&& stats.p90_us == s[percentile_index(n, 90)]
            &&& stats.p99_us == s[percentile_index(n, 99)]
            &&& averages(mean, s, stats.mean_us)
        }),
{
    let n: usize = samples_us.len();
    let mut s: Vec<u64> = Vec::new();
    let mut i: usize = 0;
    assert(samples_us@.take(0) =~= Seq::empty());
    while i < n
        invariant
            i <= n,
            n == samples_us@.len(),
            s@ == sorted(samples_us@.take(i as int)),
        decreases n - i,
    {
        proof {
            assert(samples_us@.take(i + 1).drop_last() =~= samples_us@.take(i as int));
        }
        file(&mut s, samples_us[i]);
        i += 1;
    }
    assert(samples_us@.take(i as int) =~= samples_us@);
    proof {
        law_sorted_is_a_permutation(samples_us@);
    }
    let p50_us: u64 = s[((n as u128 * 50 + 99) / 100 - 1) as usize];
    let p90_us: u64 = s[((n as u128 * 90 + 99) / 100 - 1) as usize];
    let p99_us: u64 = s[((n as u128 * 99 + 99) / 100 - 1) as usize];
    let all = s.as_slice();
    let mean_us: u64 = mean(all);
    assert(averages(mean, sorted(samples_us@), mean_us));
    LatencyStats { mean_us, p50_us, p90_us, p99_us }
}

/// Sorting keeps the samples, each as often as it occurs, and puts them in
/// ascending order.
pub proof fn law_sorted_is_a_permutation(samples: Seq<u64>)
    ensures
        sorted(samples).len() == samples.len(),
        sorted(samples).to_multiset() == samples.to_multiset(),
        forall|i: int, j: int|
            0 <= i <= j < samples.len() ==> rank_double(#[trigger] sorted(samples)[i]) <= rank_double(
                #[trigger] sorted(samples)[j],
            ),
    decreases samples.len(),
{
    samples.to_multiset_ensures();
    if samples.len() == 0 {
        assert(sorted(samples) =~= samples);
    } else {
        let init = samples.drop_last();
        law_sorted_is_a_permutation(init);
        init.to_multiset_ensures();
        assert(samples =~= init.push(samples.last()));
        lemma_filed(sorted(init), samples.last());
    }
}

/// The percentiles are nearest-rank: each is a sample, at least `p` percent of
/// the samples are at most that large, and of no smaller sample is that so.
pub proof fn law_percentiles_are_nearest_rank(samples: Seq<u64>, p: int)
    requires
        samples.len() > 0,
        1 <= p <= 100,
    ensures
        ({
            let v = sorted(samples)[percentile_index(samples.len() as int, p)];
            &&& samples.contains(v)
            &&& at_or_below(samples, v) >= share(samples.len() as int, p)
            &&& forall|x: u64| #[trigger]
                samples.contains(x) && rank_double(x) < rank_double(v) ==> at_or_below(samples, x) < share(
                    samples.len() as int,
                    p,
                )
        }),
{
    let n = samples.len() as int;
    let s = sorted(samples);
    let i = percentile_index(n, p);
    law_sorted_is_a_permutation(samples);
    assert(0 <= i < n) by {
        assert(n <= n * p <= n * 100) by (nonlinear_arith)
            requires
                n > 0,
                1 <= p <= 100,
        ;
    }
    let v = s[i];
    samples.to_multiset_ensures();
    s.to_multiset_ensures();
    assert(s.contains(v));
    assert(s.to_multiset().count(v) > 0);
    lemma_sorted_count(samples, v);
    lemma_count_bounds(s, v, i + 1);
    assert forall|x: u64| #[trigger] samples.contains(x) && rank_double(x) < rank_double(v) implies at_or_below(
        samples,
        x,
    ) < share(n, p) by {
        lemma_sorted_count(samples, x);
        lemma_count_bounds(s, x, i);
    }
}

/// The median is at most the 90th percentile, and that at most the 99th.
pub proof fn law_percentiles_ascend(samples: Seq<u64>)
    requires
        samples.len() > 0,
    ensures
        ({
            let s = sorted(samples);
            let n = samples.len() as int;
            rank_double(s[percentile_index(n, 50)]) <= rank_double(s[percentile_index(n, 90)]) <= rank_double(
                s[percentile_index(n, 99)],
            )
        }),
{
    law_sorted_is_a_permutation(samples);
}

/// The order in which the samples come makes no difference.
pub proof fn law_order_of_samples_is_irrelevant(a: Seq<u64>, b: Seq<u64>)
    requires
        a.to_multiset() == b.to_multiset(),
    ensures
        a.len() == b.len(),
        sorted(a) == sorted(b),
{
    let leq = |x: u64, y: u64| rank_double(x) <= rank_double(y);
    law_sorted_is_a_permutation(a);
    law_sorted_is_a_permutation(b);
    vstd::seq_lib::lemma_sorted_unique(sorted(a), sorted(b), leq);
}

/// As many samples are at most `x` before sorting as after it.
proof fn lemma_sorted_count(samples: Seq<u64>, x: u64)
    ensures
        at_or_below(sorted(samples), x) == at_or_below(samples, x),
    decreases samples.len(),
{
    if samples.len() > 0 {
        lemma_sorted_count(samples.drop_last(), x);
        lemma_filed_count(sorted(samples.drop_last()), samples.last(), x);
    }
}

proof fn lemma_filed_count(s: Seq<u64>, y: u64, x: u64)
    ensures
        at_or_below(filed(s, y), x) == at_or_below(s, x) + (if rank_double(y) <= rank_double(x) { 1nat } else { 0nat }),
    decreases s.len(),
{
    let f = filed(s, y);
    if s.len() == 0 {
        assert(f.drop_last() =~= s);
    } else if rank_double(s.last()) <= rank_double(y) {
        assert(f.drop_last() =~= s);
    } else {
        lemma_filed_count(s.drop_last(), y, x);
        assert(f.drop_last() =~= filed(s.drop_last(), y));
    }
}

/// Where the first `m` samples are at most `x`, at least `m` are; where all
/// others are larger, at most `m` are.
proof fn lemma_count_bounds(s: Seq<u64>, x: u64, m: int)
    requires
        0 <= m <= s.len(),
    ensures
        (forall|i: int| 0 <= i < m ==> rank_double(#[trigger] s[i]) <= rank_double(x)) ==> at_or_below(s, x) >= m,
        (forall|i: int| m <= i < s.len() ==> rank_double(#[trigger] s[i]) > rank_double(x)) ==> at_or_below(s, x) <= m,
    decreases s.len(),
{
    if s.len() > 0 {
        let init = s.drop_last();
        let most = if m < s.len() { m } else { m - 1 };
        lemma_count_bounds(init, x, most);
        if forall|i: int| 0 <= i < m ==> rank_double(#[trigger] s[i]) <= rank_double(x) {
            assert forall|i: int| 0 <= i < most implies rank_double(#[trigger] init[i]) <= rank_double(x) by {
                assert(init[i] == s[i]);
            }
            if m == s.len() {
                assert(rank_double(s[m - 1]) <= rank_double(x));
            }
        }
        if forall|i: int| m <= i < s.len() ==> rank_double(#[trigger] s[i]) > rank_double(x) {
            assert forall|i: int| most <= i < init.len() implies rank_double(#[trigger] init[i]) > rank_double(x) by {
                assert(init[i] == s[i]);
            }
            if m < s.len() {
                assert(rank_double(s[s.len() - 1]) > rank_double(x));
            }
        }
    }
}

proof fn lemma_filed(s: Seq<u64>, x: u64)
    requires
        forall|i: int, j: int|
            0 <= i <= j < s.len() ==> rank_double(#[trigger] s[i]) <= rank_double(#[trigger] s[j]),
    ensures
        filed(s, x).len() == s.len() + 1,
        filed(s, x).to_multiset() == s.to_multiset().insert(x),
        forall|i: int, j: int|
            0 <= i <= j < filed(s, x).len() ==> rank_double(#[trigger] filed(s, x)[i]) <= rank_double(
                #[trigger] filed(s, x)[j],
            ),
        forall|i: int|
            0 <= i < filed(s, x).len() ==> #[trigger] filed(s, x)[i] == x || s.contains(filed(s, x)[i]),
    decreases s.len(),
{
    s.to_multiset_ensures();
    let f = filed(s, x);
    if s.len() == 0 {
        assert(f =~= s.push(x));
    } else if rank_double(s.last()) <= rank_double(x) {
        assert forall|i: int, j: int| 0 <= i <= j < f.len() implies rank_double(#[trigger] f[i]) <= rank_double(
            #[trigger] f[j],
        ) by {
            if i < s.len() {
                assert(rank_double(s[i]) <= rank_double(s[s.len() - 1]));
                assert(f[i] == s[i]);
                if j < s.len() {
                    assert(f[j] == s[j]);
                }
            }
        }
        assert forall|i: int| 0 <= i < f.len() implies #[trigger] f[i] == x || s.contains(f[i]) by {
            if i < s.len() {
                assert(s[i] == f[i]);
            }
        }
    } else {
        let t = s.drop_last();
        let g = filed(t, x);
        lemma_filed(t, x);
        t.to_multiset_ensures();
        g.to_multiset_ensures();
        assert(s =~= t.push(s.last()));
        assert(f.to_multiset() =~= s.to_multiset().insert(x));
        assert forall|i: int| 0 <= i < f.len() implies #[trigger] f[i] == x || s.contains(f[i]) by {
            if i < g.len() {
                assert(f[i] == g[i]);
                if g[i] != x {
                    let k = choose|k: int| 0 <= k < t.len() && t[k] == g[i];
                    assert(s[k] == f[i]);
                }
            } else {
                assert(s[s.len() - 1] == f[i]);
            }
        }
        assert forall|i: int, j: int| 0 <= i <= j < f.len() implies rank_double(#[trigger] f[i]) <= rank_double(
            #[trigger] f[j],
        ) by {
            if j < g.len() {
                assert(f[i] == g[i] && f[j] == g[j]);
            } else if i < g.len() {
                assert(f[i] == g[i]);
                if g[i] != x {
                    let k = choose|k: int| 0 <= k < t.len() && t[k] == g[i];
                    assert(rank_double(s[k]) <= rank_double(s[s.len() - 1]));
                }
            }
        }
    }
}

/// The hits of no queries are none; and one more query adds as many hits as
/// there are ids both among its first `k` results and among its first `k` true
/// neighbors.
pub proof fn law_each_query_adds_its_common_ids(
    results: Seq<Vec<u32>>,
    gt: IdLists,
    k: nat,
    queries: nat,
    common: Set<u32>,
)
    requires
        gt.wf(),
        queries < gt.count,
        k <= gt.dim,
        forall|id: u32| #[trigger]
            common.contains(id) <==> (exists|i: int|
                0 <= i < k && i < results[queries as int]@.len() && #[trigger] results[queries as int]@[i] == id)
                && (exists|j: int| 0 <= j < k && #[trigger] gt.row(queries as int)[j] == id),
    ensures
        hits(results, gt, k, 0) == 0,
        hits(results, gt, k, queries + 1) == hits(results, gt, k, queries) + common.len(),
{
    let found = results[queries as int]@;
    let m = considered(found, k) as int;
    let a = found.take(m);
    let b = gt.row(queries as int).take(k as int);
    lemma_row_bounds(queries as int, gt.dim as int, gt.count as int);
    assert forall|id: u32| a.to_set().intersect(b.to_set()).contains(id) implies common.contains(id) by {
        let i = choose|i: int| 0 <= i < a.len() && a[i] == id;
        let j = choose|j: int| 0 <= j < b.len() && b[j] == id;
        assert(found[i] == id);
        assert(gt.row(queries as int)[j] == id);
    }
    assert forall|id: u32| common.contains(id) implies a.to_set().intersect(b.to_set()).contains(id) by {
        let i = choose|i: int| 0 <= i < k && i < found.len() && #[trigger] results[queries as int]@[i] == id;
        let j = choose|j: int| 0 <= j < k && #[trigger] gt.row(queries as int)[j] == id;
        assert(a[i] == id);
        assert(b[j] == id);
    }
    assert(a.to_set().intersect(b.to_set()) =~= common);
}

/// A percentile is a sample; at least `p` percent of the samples are at most
/// that large; and of no smaller sample is that so.
pub proof fn law_percentiles_split_the_samples(samples: Seq<u64>, p: int)
    requires
        samples.len() > 0,
        1 <= p <= 100,
    ensures
        ({
            let v = sorted(samples)[percentile_index(samples.len() as int, p)];
            &&& samples.contains(v)
            &&& 100 * samples.filter(|y: u64| rank_double(y) <= rank_double(v)).len() >= p * samples.len()
            &&& forall|x: u64| #[trigger]
                samples.contains(x) && rank_double(x) < rank_double(v) ==> 100 * samples.filter(
                    |y: u64| rank_double(y) <= rank_double(x),
                ).len() < p * samples.len()
        }),
{
    let n = samples.len() as int;
    let v = sorted(samples)[percentile_index(n, p)];
    law_percentiles_are_nearest_rank(samples, p);
    lemma_count_is_filter(samples, v);
    assert(p * n == n * p) by (nonlinear_arith);
    assert forall|x: u64| #[trigger] samples.contains(x) && rank_double(x) < rank_double(v) implies 100
        * samples.filter(|y: u64| rank_double(y) <= rank_double(x)).len() < p * n by {
        lemma_count_is_filter(samples, x);
    }
}

proof fn lemma_count_is_filter(samples: Seq<u64>, x: u64)
    ensures
        at_or_below(samples, x) == samples.filter(|y: u64| rank_double(y) <= rank_double(x)).len(),
    decreases samples.len(),
{
    reveal(Seq::filter);
    if samples.len() > 0 {
        lemma_count_is_filter(samples.drop_last(), x);
    }
}

/// The mean is that of all samples, each as often as it occurs, in ascending
/// order.
pub proof fn law_mean_is_of_all_samples<A: Fn(&[u64]) -> u64>(mean: &A, samples: Seq<u64>, m: u64)
    requires
        averages(mean, sorted(samples), m),
    ensures
        exists|t: &[u64]| #[trigger] ascends(t@) && t@.to_multiset() == samples.to_multiset() && call_ensures(*mean, (t,), m),
{
    law_sorted_is_a_permutation(samples);
    let t = choose|t: &[u64]| t@ == sorted(samples) && #[trigger] call_ensures(*mean, (t,), m);
    assert(ascends(t@));
}

/// The samples stand in ascending order.
pub open spec fn ascends(s: Seq<u64>) -> bool {
    forall|i: int, j: int| 0 <= i <= j < s.len() ==> rank_double(#[trigger] s[i]) <= rank_double(#[trigger] s[j])
}

} // verus!
