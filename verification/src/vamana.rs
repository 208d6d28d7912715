//! Vamana construction: two passes of insert-and-prune.

use vstd::prelude::*;

use crate::beam::{
    answered_by, in_range, law_search_is_deterministic, lemma_run, lemma_seeded, lemma_trace_weaken, names, Beam,
};
use crate::bits::{rank, total_rank};
use crate::dataset::FloatVectors;
use crate::graph::VamanaGraph;
use crate::scorer::{covers_all, scores, RouteScorer};
use crate::search::{beam_search, SearchScratch};
use crate::select::{holds, lemma_subset_len};
use crate::topk::{in_order, kept, lemma_all_kept, lemma_kept_in_order, lemma_kept_offered, pair_le, TopK};

verus! {

/// The state of the generator after one step.
pub open spec fn splitmix_step(state: u64) -> u64 {
    state.wrapping_add(0x9E37_79B9_7F4A_7C15)
}

/// The number that a state gives.
pub open spec fn splitmix_mix(state: u64) -> u64 {
    let a = (state ^ (state >> 30u64)).wrapping_mul(0xBF58_476D_1CE4_E5B9);
    let b = (a ^ (a >> 27u64)).wrapping_mul(0x94D0_49BB_1331_11EB);
    b ^ (b >> 31u64)
}

/// The next number of the generator.
pub fn splitmix64(state: &mut u64) -> (z: u64)
    ensures
        *final(state) == splitmix_step(*old(state)),
        z == splitmix_mix(splitmix_step(*old(state))),
{
    *state = state.wrapping_add(0x9E37_79B9_7F4A_7C15);
    let mut z: u64 = *state;
    z = (z ^ (z >> 30u64)).wrapping_mul(0xBF58_476D_1CE4_E5B9);
    z = (z ^ (z >> 27u64)).wrapping_mul(0x94D0_49BB_1331_11EB);
    z ^ (z >> 31u64)
}

/// `v` with the elements at `i` and `j` exchanged.
pub open spec fn swapped(v: Seq<u32>, i: int, j: int) -> Seq<u32> {
    v.update(i, v[j]).update(j, v[i])
}

/// Fisher-Yates, from position `i` down to 1: each position is exchanged with
/// one at or before it, picked by the generator.
pub open spec fn shuffled(v: Seq<u32>, state: u64, i: int) -> Seq<u32>
    decreases i,
{
    if i < 1 {
        v
    } else {
        let next = splitmix_step(state);
        let j = splitmix_mix(next) as int % (i + 1);
        shuffled(swapped(v, i, j), next, i - 1)
    }
}

/// The order in which a pass goes through `n` points.
pub open spec fn pass_order(n: nat, seed: u64) -> Seq<u32> {
    shuffled(Seq::new(n, |i: int| i as u32), seed, n - 1)
}

/// Deterministic Fisher-Yates shuffle of 0..n.
pub fn permutation(n: usize, seed: u64) -> (v: Vec<u32>)
    requires
        n <= u32::MAX,
    ensures
        v@ == pass_order(n as nat, seed),
        v@.len() == n,
        v@.no_duplicates(),
        forall|i: int| 0 <= i < n ==> #[trigger] v@[i] < n,
{
    let mut v: Vec<u32> = Vec::new();
    let mut i: usize = 0;
    while i < n
        invariant
            i <= n,
            n <= u32::MAX,
            v@ == Seq::new(i as nat, |k: int| k as u32),
        decreases n - i,
    {
        v.push(i as u32);
        i += 1;
        assert(v@ =~= Seq::new(i as nat, |k: int| k as u32));
    }
    let mut state: u64 = seed;
    let mut at: usize = if n > 0 { n - 1 } else { 0 };
    let ghost start = v@;
    while at >= 1
        invariant
            at < n || at == 0,
            n <= u32::MAX,
            v@.len() == n,
            v@.no_duplicates(),
            forall|i: int| 0 <= i < n ==> #[trigger] v@[i] < n,
            shuffled(v@, state, at as int) == pass_order(n as nat, seed),
        decreases at,
    {
        let ghost before = v@;
        let z: u64 = splitmix64(&mut state);
        let j: usize = (z % (at as u64 + 1)) as usize;
        let x: u32 = v[at];
        let y: u32 = v[j];
        v.set(at, y);
        v.set(j, x);
        proof {
            assert(v@ =~= swapped(before, at as int, j as int));
            lemma_swapped(before, at as int, j as int);
        }
        at -= 1;
    }
    v
}

/// Exchanging two elements loses none.
proof fn lemma_swapped(v: Seq<u32>, i: int, j: int)
    requires
        0 <= i < v.len(),
        0 <= j < v.len(),
    ensures
        swapped(v, i, j).len() == v.len(),
        v.no_duplicates() ==> swapped(v, i, j).no_duplicates(),
        forall|k: int| 0 <= k < v.len() ==> v.contains(#[trigger] swapped(v, i, j)[k]),
{
    let s = swapped(v, i, j);
    assert forall|k: int| 0 <= k < v.len() implies v.contains(#[trigger] s[k]) by {
        if k == j {
            assert(s[k] == v[i]);
        } else if k == i {
            assert(s[k] == v[j]);
        } else {
            assert(s[k] == v[k]);
        }
    }
    if v.no_duplicates() {
        assert forall|a: int, b: int| 0 <= a < s.len() && 0 <= b < s.len() && a != b implies s[a] != s[b] by {
            let oa = if a == i { j } else if a == j { i } else { a };
            let ob = if b == i { j } else if b == j { i } else { b };
            assert(s[a] == v[oa] && s[b] == v[ob]);
        }
    }
}

/// Shuffling loses no point.
proof fn lemma_shuffled(v: Seq<u32>, state: u64, i: int, n: nat)
    requires
        i < v.len(),
        v.no_duplicates(),
        forall|k: int| 0 <= k < v.len() ==> #[trigger] v[k] < n,
    ensures
        shuffled(v, state, i).len() == v.len(),
        shuffled(v, state, i).no_duplicates(),
        forall|k: int| 0 <= k < v.len() ==> #[trigger] shuffled(v, state, i)[k] < n,
    decreases i,
{
    if i >= 1 {
        let next = splitmix_step(state);
        let j = splitmix_mix(next) as int % (i + 1);
        let s = swapped(v, i, j);
        lemma_swapped(v, i, j);
        assert forall|k: int| 0 <= k < s.len() implies #[trigger] s[k] < n by {
            let m = choose|m: int| 0 <= m < v.len() && v[m] == s[k];
            assert(v[m] < n);
        }
        lemma_shuffled(s, next, i - 1, n);
    }
}

/// A pass goes through every point, and through each of them once.
pub proof fn law_pass_visits_every_point_once(n: nat, seed: u64, p: u32)
    requires
        n <= u32::MAX,
        p < n,
    ensures
        pass_order(n, seed).len() == n,
        pass_order(n, seed).no_duplicates(),
        pass_order(n, seed).contains(p),
        forall|i: int| 0 <= i < n ==> #[trigger] pass_order(n, seed)[i] < n,
{
    let all = Seq::new(n, |i: int| i as u32);
    let order = pass_order(n, seed);
    assert forall|i: int, j: int| 0 <= i < all.len() && 0 <= j < all.len() && i != j implies all[i] != all[j] by {}
    lemma_shuffled(all, seed, n - 1, n);
    assert forall|i: int| 0 <= i < order.len() implies all.contains(#[trigger] order[i]) by {
        assert(all[order[i] as int] == order[i]);
    }
    lemma_subset_len(order, all);
    assert(order.contains(all[p as int]));
}

/// How a graph is built.
pub struct BuildParams {
    /// Max out-degree.
    pub r: usize,
    /// Candidate list size during construction (the paper's L).
    pub l_build: usize,
    /// Pruning slack; > 1.0 keeps longer "highway" edges for navigability.
    pub alpha: u32,
}

/// The bit pattern of 1.0.
pub const ONE: u32 = 0x3f80_0000;

impl Default for BuildParams {
    fn default() -> (p: Self)
        ensures
            p.r == 32,
            p.l_build == 100,
            p.alpha == 0x3f99_999au32,
    {
        BuildParams { r: 32, l_build: 100, alpha: 0x3f99_999a }
    }
}

/// The distance between two points.
pub open spec fn apart<S: RouteScorer>(scorer: &S, base: FloatVectors, i: u32, j: u32) -> u32 {
    scorer.distance(base.row(i as int), j)
}

/// The points of a list with their distances from `i`.
pub open spec fn measured_from<S: RouteScorer>(
    scorer: &S,
    base: FloatVectors,
    i: u32,
    ids: Seq<u32>,
) -> Seq<(u32, u32)> {
    Seq::new(ids.len(), |k: int| (apart(scorer, base, i, ids[k]), ids[k]))
}

/// The distances between any two points can be had.
pub open spec fn all_apart<S: RouteScorer>(scorer: &S, base: FloatVectors) -> bool {
    forall|i: int| 0 <= i < base.count ==> covers_all(scorer, #[trigger] base.row(i), base.count as nat)
}

/// The test says yes or no to any three numbers, and always the same.
pub open spec fn decisive<F: Fn(u32, u32, u32) -> bool>(occludes: &F) -> bool {
    &&& forall|a: u32, d: u32, e: u32| #[trigger] call_requires(*occludes, (a, d, e))
    &&& forall|a: u32, d: u32, e: u32, x: bool, y: bool| #[trigger]
        call_ensures(*occludes, (a, d, e), x) && #[trigger] call_ensures(*occludes, (a, d, e), y) ==> x == y
}

/// A kept point hides a candidate: the test says yes to the slack, the
/// distance between the two, and the candidate's own distance.
pub open spec fn hides<S: RouteScorer, F: Fn(u32, u32, u32) -> bool>(
    scorer: &S,
    base: FloatVectors,
    occludes: &F,
    alpha: u32,
) -> spec_fn(u32, (u32, u32)) -> bool {
    |kept_id: u32, c: (u32, u32)| call_ensures(*occludes, (alpha, apart(scorer, base, kept_id, c.1), c.0), true)
}

/// The candidates other than `p`, each point once, as it first occurs.
pub open spec fn fresh_candidates(cand: Seq<(u32, u32)>, p: u32) -> Seq<(u32, u32)>
    decreases cand.len(),
{
    if cand.len() == 0 {
        Seq::empty()
    } else {
        let before = fresh_candidates(cand.drop_last(), p);
        if cand.last().1 == p || names(cand.drop_last(), cand.last().1) {
            before
        } else {
            before.push(cand.last())
        }
    }
}

/// The same, closest first; of two at the same distance, the lower id.
pub open spec fn closest_first(cand: Seq<(u32, u32)>, p: u32) -> Seq<(u32, u32)> {
    let fresh = fresh_candidates(cand, p);
    kept(fresh, fresh.len() + 1)
}

/// One of the kept points hides the candidate.
pub open spec fn hidden(kept_ids: Seq<u32>, hides: spec_fn(u32, (u32, u32)) -> bool, c: (u32, u32)) -> bool {
    exists|i: int| 0 <= i < kept_ids.len() && hides(#[trigger] kept_ids[i], c)
}

/// Going through the candidates, keep each that no point kept so far hides,
/// until `r` are kept.
pub open spec fn survivors(cand: Seq<(u32, u32)>, hides: spec_fn(u32, (u32, u32)) -> bool, r: nat) -> Seq<u32>
    decreases cand.len(),
{
    if cand.len() == 0 {
        Seq::empty()
    } else {
        let before = survivors(cand.drop_last(), hides, r);
        if before.len() < r && !hidden(before, hides, cand.last()) {
            before.push(cand.last().1)
        } else {
            before
        }
    }
}

/// The neighbors that `p` keeps of its candidates.
pub open spec fn pruned<S: RouteScorer, F: Fn(u32, u32, u32) -> bool>(
    scorer: &S,
    base: FloatVectors,
    occludes: &F,
    p: u32,
    cand: Seq<(u32, u32)>,
    alpha: u32,
    r: nat,
) -> Seq<u32> {
    survivors(closest_first(cand, p), hides(scorer, base, occludes, alpha), r)
}

/// The candidates' ids are below `n`.
pub open spec fn pairs_in_range(cand: Seq<(u32, u32)>, n: nat) -> bool {
    forall|i: int| 0 <= i < cand.len() ==> (#[trigger] cand[i]).1 < n
}

/// Every fresh candidate occurs among the candidates and is not `p`, and none
/// occurs twice.
proof fn lemma_fresh_candidates(cand: Seq<(u32, u32)>, p: u32)
    ensures
        forall|i: int|
            0 <= i < fresh_candidates(cand, p).len() ==> (#[trigger] fresh_candidates(cand, p)[i]).1 != p
                && cand.contains(fresh_candidates(cand, p)[i]),
        forall|i: int, j: int|
            0 <= i < j < fresh_candidates(cand, p).len() ==> (#[trigger] fresh_candidates(cand, p)[i]).1 != (
            #[trigger] fresh_candidates(cand, p)[j]).1,
        fresh_candidates(cand, p).len() <= cand.len(),
    decreases cand.len(),
{
    if cand.len() > 0 {
        let init = cand.drop_last();
        let before = fresh_candidates(init, p);
        let after = fresh_candidates(cand, p);
        lemma_fresh_candidates(init, p);
        assert forall|i: int| 0 <= i < after.len() implies (#[trigger] after[i]).1 != p && cand.contains(after[i]) by {
            if i < before.len() {
                assert(after[i] == before[i]);
                let k = choose|k: int| 0 <= k < init.len() && init[k] == before[i];
                assert(cand[k] == after[i]);
            } else {
                assert(cand[cand.len() - 1] == after[i]);
            }
        }
        assert forall|i: int, j: int| 0 <= i < j < after.len() implies (#[trigger] after[i]).1 != (
        #[trigger] after[j]).1 by {
            assert(after[i] == before[i]);
            if j < before.len() {
                assert(after[j] == before[j]);
            } else {
                let k = choose|k: int| 0 <= k < init.len() && init[k] == before[i];
                assert(init[k].1 == before[i].1);
                assert(!names(init, cand.last().1));
            }
        }
    }
}

/// Placing pairs with different ids one after the other keeps them apart.
proof fn lemma_kept_ids(items: Seq<(u32, u32)>, k: nat)
    requires
        items.len() < k,
        forall|i: int, j: int| 0 <= i < j < items.len() ==> (#[trigger] items[i]).1 != (#[trigger] items[j]).1,
    ensures
        kept(items, k).len() == items.len(),
        forall|i: int, j: int|
            0 <= i < j < kept(items, k).len() ==> (#[trigger] kept(items, k)[i]).1 != (#[trigger] kept(items, k)[j]).1,
    decreases items.len(),
{
    lemma_kept_in_order(items, k);
    if items.len() > 0 {
        let init = items.drop_last();
        let e = items.last();
        assert forall|i: int, j: int| 0 <= i < j < init.len() implies (#[trigger] init[i]).1 != (
        #[trigger] init[j]).1 by {
            assert(items[i].1 != items[j].1);
        }
        lemma_kept_ids(init, k);
        lemma_kept_in_order(init, k);
        lemma_kept_offered(init, k);
        let before = kept(init, k);
        let after = kept(items, k);
        crate::topk::lemma_placed(before, e);
        let at = choose|at: int| 0 <= at <= before.len() && crate::topk::placed(before, e) == before.insert(at, e);
        assert forall|i: int| 0 <= i < before.len() implies (#[trigger] before[i]).1 != e.1 by {
            assert(init.contains(before[i]));
            let m = choose|m: int| 0 <= m < init.len() && init[m] == before[i];
            assert(items[m].1 != items[items.len() - 1].1);
        }
        assert forall|i: int, j: int| 0 <= i < j < after.len() implies (#[trigger] after[i]).1 != (
        #[trigger] after[j]).1 by {
            let oi = if i < at { i } else { i - 1 };
            let oj = if j < at { j } else { j - 1 };
            if i != at {
                assert(after[i] == before[oi]);
            }
            if j != at {
                assert(after[j] == before[oj]);
            }
        }
    }
}

/// The candidates that come up in order: the fresh ones, each once.
proof fn lemma_closest_first(cand: Seq<(u32, u32)>, p: u32)
    ensures
        closest_first(cand, p).len() <= cand.len(),
        forall|i: int|
            0 <= i < closest_first(cand, p).len() ==> (#[trigger] closest_first(cand, p)[i]).1 != p && cand.contains(
                closest_first(cand, p)[i],
            ),
        forall|i: int, j: int|
            0 <= i < j < closest_first(cand, p).len() ==> (#[trigger] closest_first(cand, p)[i]).1 != (
            #[trigger] closest_first(cand, p)[j]).1,
{
    let fresh = fresh_candidates(cand, p);
    let s = closest_first(cand, p);
    lemma_fresh_candidates(cand, p);
    lemma_kept_ids(fresh, fresh.len() + 1);
    lemma_kept_offered(fresh, fresh.len() + 1);
    assert forall|i: int| 0 <= i < s.len() implies (#[trigger] s[i]).1 != p && cand.contains(s[i]) by {
        assert(fresh.contains(s[i]));
        let k = choose|k: int| 0 <= k < fresh.len() && fresh[k] == s[i];
        assert(cand.contains(fresh[k]));
    }
}

/// Survivors are candidates, each once, and no more than `r`.
proof fn lemma_survivors(cand: Seq<(u32, u32)>, hides: spec_fn(u32, (u32, u32)) -> bool, r: nat)
    requires
        forall|i: int, j: int| 0 <= i < j < cand.len() ==> (#[trigger] cand[i]).1 != (#[trigger] cand[j]).1,
    ensures
        survivors(cand, hides, r).len() <= r,
        forall|i: int| 0 <= i < survivors(cand, hides, r).len() ==> names(cand, #[trigger] survivors(cand, hides, r)[i]),
        survivors(cand, hides, r).no_duplicates(),
    decreases cand.len(),
{
    if cand.len() > 0 {
        let init = cand.drop_last();
        let before = survivors(init, hides, r);
        let after = survivors(cand, hides, r);
        assert forall|i: int, j: int| 0 <= i < j < init.len() implies (#[trigger] init[i]).1 != (
        #[trigger] init[j]).1 by {
            assert(cand[i].1 != cand[j].1);
        }
        lemma_survivors(init, hides, r);
        assert forall|i: int| 0 <= i < after.len() implies names(cand, #[trigger] after[i]) by {
            if i < before.len() {
                assert(after[i] == before[i]);
                let k = choose|k: int| 0 <= k < init.len() && (#[trigger] init[k]).1 == before[i];
                assert(cand[k].1 == after[i]);
            } else {
                assert(cand[cand.len() - 1].1 == after[i]);
            }
        }
        assert(after.no_duplicates()) by {
            assert forall|i: int| 0 <= i < before.len() implies before[i] != cand.last().1 by {
                assert(names(init, before[i]));
                let k = choose|k: int| 0 <= k < init.len() && (#[trigger] init[k]).1 == before[i];
                assert(cand[k].1 != cand[cand.len() - 1].1);
            }
        }
    }
}

/// What a point keeps are candidates other than itself, each once, and no
/// more than `r`.
pub proof fn law_pruning_respects_r_and_dedups<S: RouteScorer, F: Fn(u32, u32, u32) -> bool>(
    scorer: &S,
    base: FloatVectors,
    occludes: &F,
    p: u32,
    cand: Seq<(u32, u32)>,
    alpha: u32,
    r: nat,
)
    ensures
        ({
            let out = pruned(scorer, base, occludes, p, cand, alpha, r);
            &&& out.len() <= r
            &&& out.no_duplicates()
            &&& !out.contains(p)
            &&& forall|i: int| 0 <= i < out.len() ==> names(cand, #[trigger] out[i])
        }),
{
    let s = closest_first(cand, p);
    let out = pruned(scorer, base, occludes, p, cand, alpha, r);
    lemma_closest_first(cand, p);
    lemma_survivors(s, hides(scorer, base, occludes, alpha), r);
    assert forall|i: int| 0 <= i < out.len() implies names(cand, #[trigger] out[i]) && out[i] != p by {
        assert(names(s, out[i]));
        let k = choose|k: int| 0 <= k < s.len() && (#[trigger] s[k]).1 == out[i];
        assert(cand.contains(s[k]));
        let m = choose|m: int| 0 <= m < cand.len() && cand[m] == s[k];
        assert(cand[m].1 == out[i]);
    }
}

/// Whether an id is that of one of the first `n` pairs.
fn seen_before(cand: &Vec<(u32, u32)>, n: usize, id: u32) -> (b: bool)
    requires
        n <= cand@.len(),
    ensures
        b == names(cand@.take(n as int), id),
{
    let mut i: usize = 0;
    while i < n
        invariant
            i <= n <= cand@.len(),
            forall|j: int| 0 <= j < i ==> (#[trigger] cand@[j]).1 != id,
        decreases n - i,
    {
        if cand[i].1 == id {
            assert(cand@.take(n as int)[i as int].1 == id);
            return true;
        }
        i += 1;
    }
    assert(!names(cand@.take(n as int), id)) by {
        if names(cand@.take(n as int), id) {
            let j = choose|j: int| 0 <= j < n && (#[trigger] cand@.take(n as int)[j]).1 == id;
            assert(cand@[j].1 == id);
        }
    }
    false
}

/// RobustPrune: greedily keep the closest candidate, then drop every
/// candidate it "occludes" (alpha * d(kept, c) <= d(p, c)).
///
/// Distances here are *squared* L2, while alpha is defined on the metric, so
/// `occludes` compares by alpha^2. It is given alpha, the distance between
/// the kept point and the candidate, and the candidate's own distance.
pub fn robust_prune<S: RouteScorer, F: Fn(u32, u32, u32) -> bool>(
    scorer: &S,
    base: &FloatVectors,
    occludes: &F,
    p: u32,
    cand: &Vec<(u32, u32)>,
    alpha: u32,
    r: usize,
) -> (out: Vec<u32>)
    requires
        base.wf(),
        all_apart(scorer, *base),
        decisive(occludes),
        pairs_in_range(cand@, base.count as nat),
        cand@.len() < usize::MAX,
        r >= 1,
    ensures
        out@ == pruned(scorer, *base, occludes, p, cand@, alpha, r as nat),
{
    let mut fresh: Vec<(u32, u32)> = Vec::new();
    let mut i: usize = 0;
    assert(cand@.take(0) =~= Seq::empty());
    while i < cand.len()
        invariant
            i <= cand@.len(),
            fresh@ == fresh_candidates(cand@.take(i as int), p),
        decreases cand@.len() - i,
    {
        proof {
            assert(cand@.take(i + 1).drop_last() =~= cand@.take(i as int));
            assert(cand@.take(i + 1).last() == cand@[i as int]);
        }
        let c: (u32, u32) = cand[i];
        if c.1 != p && !seen_before(cand, i, c.1) {
            fresh.push(c);
        }
        i += 1;
    }
    assert(cand@.take(i as int) =~= cand@);
    proof {
        lemma_fresh_candidates(cand@, p);
        lemma_closest_first(cand@, p);
    }
    let mut sorter = TopK::new(fresh.len() + 1);
    let mut i: usize = 0;
    assert(fresh@.take(0) =~= Seq::empty());
    while i < fresh.len()
        invariant
            i <= fresh@.len(),
            sorter.wf(),
            sorter.capacity() == fresh@.len() + 1,
            sorter@ == kept(fresh@.take(i as int), fresh@.len() + 1),
        decreases fresh@.len() - i,
    {
        proof {
            assert(fresh@.take(i + 1).drop_last() =~= fresh@.take(i as int));
            assert(fresh@.take(i + 1).last() == fresh@[i as int]);
        }
        sorter.push(fresh[i].0, fresh[i].1);
        i += 1;
    }
    assert(fresh@.take(i as int) =~= fresh@);
    let sorted = sorter.into_sorted();
    let ghost s = closest_first(cand@, p);
    let ghost shade = hides(scorer, *base, occludes, alpha);
    assert(sorted@ == s);
    proof {
        assert forall|i: int| 0 <= i < s.len() implies (#[trigger] s[i]).1 < base.count by {
            assert(cand@.contains(s[i]));
            let k = choose|k: int| 0 <= k < cand@.len() && cand@[k] == s[i];
            assert(cand@[k].1 < base.count);
        }
    }
    let mut out: Vec<u32> = Vec::new();
    let mut i: usize = 0;
    assert(s.take(0) =~= Seq::empty());
    while i < sorted.len()
        invariant
            i <= s.len(),
            sorted@ == s,
            base.wf(),
            all_apart(scorer, *base),
            decisive(occludes),
            forall|i: int| 0 <= i < s.len() ==> (#[trigger] s[i]).1 < base.count,
            forall|k: int| 0 <= k < out@.len() ==> #[trigger] out@[k] < base.count,
            shade == hides(scorer, *base, occludes, alpha),
            out@ == survivors(s.take(i as int), shade, r as nat),
        decreases s.len() - i,
    {
        let c: (u32, u32) = sorted[i];
        proof {
            assert(s.take(i + 1).drop_last() =~= s.take(i as int));
            assert(s.take(i + 1).last() == c);
            assert(s[i as int].1 < base.count);
        }
        if out.len() < r {
            let mut alive: bool = true;
            let mut k: usize = 0;
            while k < out.len() && alive
                invariant
                    k <= out@.len(),
                    base.wf(),
                    all_apart(scorer, *base),
                    decisive(occludes),
                    c.1 < base.count,
                    forall|k: int| 0 <= k < out@.len() ==> #[trigger] out@[k] < base.count,
                    shade == hides(scorer, *base, occludes, alpha),
                    alive ==> forall|m: int| 0 <= m < k ==> !shade(#[trigger] out@[m], c),
                    !alive ==> hidden(out@, shade, c),
                decreases out@.len() - k,
            {
                let m: u32 = out[k];
                assert(out@[k as int] < base.count);
                assert(covers_all(scorer, base.row(m as int), base.count as nat));
                let d: u32 = scorer.score(base.get(m as usize), c.1);
                if occludes(alpha, d, c.0) {
                    assert(shade(out@[k as int], c));
                    alive = false;
                }
                k += 1;
            }
            if alive {
                out.push(c.1);
            }
        }
        i += 1;
    }
    assert(s.take(i as int) =~= s);
    out
}

/// Pruning drops a candidate only for a reason: one of the kept points hides
/// it, or `r` points are kept.
pub proof fn law_pruning_drops_only_occluded<S: RouteScorer, F: Fn(u32, u32, u32) -> bool>(
    scorer: &S,
    base: FloatVectors,
    occludes: &F,
    p: u32,
    cand: Seq<(u32, u32)>,
    alpha: u32,
    r: nat,
    i: int,
)
    requires
        0 <= i < closest_first(cand, p).len(),
    ensures
        ({
            let c = closest_first(cand, p)[i];
            let out = pruned(scorer, base, occludes, p, cand, alpha, r);
            out.contains(c.1) || out.len() == r || hidden(out, hides(scorer, base, occludes, alpha), c)
        }),
{
    let s = closest_first(cand, p);
    lemma_closest_first(cand, p);
    lemma_dropped(s, hides(scorer, base, occludes, alpha), r, i);
}

proof fn lemma_dropped(cand: Seq<(u32, u32)>, hides: spec_fn(u32, (u32, u32)) -> bool, r: nat, i: int)
    requires
        0 <= i < cand.len(),
    ensures
        survivors(cand, hides, r).len() <= r,
        survivors(cand, hides, r).contains(cand[i].1) || survivors(cand, hides, r).len() == r || hidden(
            survivors(cand, hides, r),
            hides,
            cand[i],
        ),
    decreases cand.len(),
{
    let init = cand.drop_last();
    let before = survivors(init, hides, r);
    let after = survivors(cand, hides, r);
    if init.len() > 0 {
        lemma_dropped(init, hides, r, if i < init.len() { i } else { 0 });
    }
    if i < init.len() {
        assert(init[i] == cand[i]);
        if before.contains(cand[i].1) {
            let k = choose|k: int| 0 <= k < before.len() && before[k] == cand[i].1;
            assert(after[k] == cand[i].1);
        } else if hidden(before, hides, cand[i]) {
            let k = choose|k: int| 0 <= k < before.len() && hides(#[trigger] before[k], cand[i]);
            assert(hides(after[k], cand[i]));
        }
    } else if before.len() < r && !hidden(before, hides, cand.last()) {
        assert(after[before.len() as int] == cand[i].1);
    }
}

/// The first candidate with its id stands at place `m`.
pub open spec fn first_of_its_id(cand: Seq<(u32, u32)>, m: int) -> bool {
    &&& 0 <= m < cand.len()
    &&& forall|x: int| 0 <= x < m ==> (#[trigger] cand[x]).1 != cand[m].1
}

/// A candidate is the first one with its id.
spec fn occurs_first(cand: Seq<(u32, u32)>, e: (u32, u32)) -> bool {
    exists|m: int| #[trigger] first_of_its_id(cand, m) && cand[m] == e
}

/// The fresh candidates are the first ones of all ids but `p`.
proof fn lemma_fresh_are_first(cand: Seq<(u32, u32)>, p: u32)
    ensures
        forall|m: int| #[trigger]
            first_of_its_id(cand, m) && cand[m].1 != p ==> fresh_candidates(cand, p).contains(cand[m]),
        forall|i: int|
            0 <= i < fresh_candidates(cand, p).len() ==> occurs_first(cand, #[trigger] fresh_candidates(cand, p)[i]),
    decreases cand.len(),
{
    if cand.len() > 0 {
        let init = cand.drop_last();
        let last = cand.len() - 1;
        let before = fresh_candidates(init, p);
        let after = fresh_candidates(cand, p);
        lemma_fresh_are_first(init, p);
        assert forall|m: int| #[trigger] first_of_its_id(cand, m) && cand[m].1 != p implies after.contains(
            cand[m],
        ) by {
            if m < last {
                assert forall|x: int| 0 <= x < m implies (#[trigger] init[x]).1 != init[m].1 by {
                    assert(cand[x].1 != cand[m].1);
                }
                assert(first_of_its_id(init, m));
                assert(before.contains(init[m]));
                let k = choose|k: int| 0 <= k < before.len() && before[k] == init[m];
                assert(after[k] == cand[m]);
            } else {
                assert(!names(init, cand[m].1)) by {
                    if names(init, cand[m].1) {
                        let x = choose|x: int| 0 <= x < init.len() && (#[trigger] init[x]).1 == cand[m].1;
                        assert(cand[x].1 != cand[m].1);
                    }
                }
                assert(after[before.len() as int] == cand[m]);
            }
        }
        assert forall|i: int| 0 <= i < after.len() implies occurs_first(cand, #[trigger] after[i]) by {
            if i < before.len() {
                assert(after[i] == before[i]);
                assert(occurs_first(init, before[i]));
                let m = choose|m: int| #[trigger] first_of_its_id(init, m) && init[m] == before[i];
                assert forall|x: int| 0 <= x < m implies (#[trigger] cand[x]).1 != cand[m].1 by {
                    assert(init[x].1 != init[m].1);
                }
                assert(first_of_its_id(cand, m) && cand[m] == after[i]);
            } else {
                assert(!names(init, cand.last().1));
                assert forall|x: int| 0 <= x < last implies (#[trigger] cand[x]).1 != cand[last].1 by {
                    assert(init[x] == cand[x]);
                }
                assert(first_of_its_id(cand, last) && cand[last] == after[i]);
            }
        }
    }
}

/// Survivors keep the order of the candidates, hide none of each other, and
/// hide what is dropped before there are `r` of them.
proof fn lemma_survivors_greedy(s: Seq<(u32, u32)>, hides: spec_fn(u32, (u32, u32)) -> bool, r: nat)
    requires
        forall|i: int, j: int| 0 <= i < j < s.len() ==> (#[trigger] s[i]).1 != (#[trigger] s[j]).1,
    ensures
        ({
            let out = survivors(s, hides, r);
            &&& forall|i: int, j: int, a: int, b: int|
                #![trigger out[i], out[j], s[a], s[b]]
                0 <= i < j < out.len() && 0 <= a < s.len() && 0 <= b < s.len() && s[a].1 == out[i] && s[b].1 == out[j]
                    ==> a < b && !hides(out[i], s[b])
            &&& forall|b: int|
                #![trigger s[b]]
                0 <= b < s.len() && !out.contains(s[b].1) ==> (out.len() == r && forall|i: int, a: int|
                    #![trigger out[i], s[a]]
                    0 <= i < out.len() && 0 <= a < s.len() && s[a].1 == out[i] ==> a < b) || exists|i: int, a: int|
                    #![trigger out[i], s[a]]
                    0 <= i < out.len() && 0 <= a < b && s[a].1 == out[i] && hides(out[i], s[b])
        }),
    decreases s.len(),
{
    let out = survivors(s, hides, r);
    if s.len() > 0 {
        let init = s.drop_last();
        let last = s.len() - 1;
        let before = survivors(init, hides, r);
        assert forall|i: int, j: int| 0 <= i < j < init.len() implies (#[trigger] init[i]).1 != (
        #[trigger] init[j]).1 by {
            assert(s[i].1 != s[j].1);
        }
        lemma_survivors_greedy(init, hides, r);
        lemma_survivors(init, hides, r);
        lemma_survivors(s, hides, r);
        assert forall|i: int| 0 <= i < before.len() implies #[trigger] out[i] == before[i] && before[i]
            != s[last].1 by {
            assert(names(init, before[i]));
            let a = choose|a: int| 0 <= a < init.len() && (#[trigger] init[a]).1 == before[i];
            assert(s[a].1 != s[last].1);
        }
        assert forall|i: int, j: int, a: int, b: int|
            #![trigger out[i], out[j], s[a], s[b]]
            0 <= i < j < out.len() && 0 <= a < s.len() && 0 <= b < s.len() && s[a].1 == out[i] && s[b].1
                == out[j] implies a < b && !hides(out[i], s[b]) by {
            assert(out[i] == before[i]);
            if a == last {
                assert(before[i] != s[last].1);
            }
            assert(init[a] == s[a]);
            if j < before.len() {
                assert(out[j] == before[j]);
                if b == last {
                    assert(before[j] != s[last].1);
                }
                assert(init[b] == s[b]);
            } else {
                assert(out[j] == s[last].1);
                if b < last {
                    assert(s[b].1 != s[last].1);
                }
                assert(!hidden(before, hides, s[last]));
                assert(!hides(before[i], s[last]));
            }
        }
        assert forall|b: int|
            #![trigger s[b]]
            0 <= b < s.len() && !out.contains(s[b].1) implies (out.len() == r && forall|i: int, a: int|
            #![trigger out[i], s[a]]
            0 <= i < out.len() && 0 <= a < s.len() && s[a].1 == out[i] ==> a < b) || exists|i: int, a: int|
            #![trigger out[i], s[a]]
            0 <= i < out.len() && 0 <= a < b && s[a].1 == out[i] && hides(out[i], s[b]) by {
            if b < last {
                assert(init[b] == s[b]);
                if before.contains(s[b].1) {
                    let k = choose|k: int| 0 <= k < before.len() && before[k] == s[b].1;
                    assert(out[k] == s[b].1);
                }
                if exists|i: int, a: int|
                    #![trigger before[i], init[a]]
                    0 <= i < before.len() && 0 <= a < b && init[a].1 == before[i] && hides(before[i], init[b]) {
                    let (i, a) = choose|i: int, a: int|
                        #![trigger before[i], init[a]]
                        0 <= i < before.len() && 0 <= a < b && init[a].1 == before[i] && hides(before[i], init[b]);
                    assert(out[i] == before[i] && s[a] == init[a]);
                } else {
                    assert(before.len() == r);
                    assert(out == before);
                    assert forall|i: int, a: int|
                        #![trigger out[i], s[a]]
                        0 <= i < out.len() && 0 <= a < s.len() && s[a].1 == out[i] implies a < b by {
                        if a == last {
                            assert(before[i] != s[last].1);
                        }
                        assert(init[a] == s[a] && before[i] == out[i]);
                    }
                }
            } else {
                if before.len() < r && !hidden(before, hides, s[last]) {
                    assert(out[before.len() as int] == s[b].1);
                }
                assert(out == before);
                if hidden(before, hides, s[last]) {
                    let i = choose|i: int| 0 <= i < before.len() && hides(#[trigger] before[i], s[last]);
                    assert(names(init, before[i]));
                    let a = choose|a: int| 0 <= a < init.len() && (#[trigger] init[a]).1 == before[i];
                    assert(out[i] == before[i] && s[a].1 == out[i]);
                } else {
                    assert forall|i: int, a: int|
                        #![trigger out[i], s[a]]
                        0 <= i < out.len() && 0 <= a < s.len() && s[a].1 == out[i] implies a < b by {
                        if a == last {
                            assert(before[i] != s[last].1);
                        }
                    }
                }
            }
        }
    }
}

/// One candidate comes before another: it is closer, or as close with the
/// lower id.
pub open spec fn comes_before(a: (u32, u32), b: (u32, u32)) -> bool {
    rank(a.0) < rank(b.0) || (rank(a.0) == rank(b.0) && a.1 < b.1)
}

/// RobustPrune keeps no occluded candidate: the test of a kept neighbor
/// against one that is kept behind it is false. The neighbors come closest
/// first. Of the candidates with one id, the first one counts.
pub proof fn law_pruning_keeps_none_occluded<S: RouteScorer, F: Fn(u32, u32, u32) -> bool>(
    scorer: &S,
    base: FloatVectors,
    occludes: &F,
    p: u32,
    cand: Seq<(u32, u32)>,
    alpha: u32,
    r: nat,
    i: int,
    j: int,
    m: int,
    l: int,
)
    requires
        ({
            let out = pruned(scorer, base, occludes, p, cand, alpha, r);
            &&& 0 <= i < j < out.len()
            &&& first_of_its_id(cand, m)
            &&& first_of_its_id(cand, l)
            &&& cand[m].1 == out[i]
            &&& cand[l].1 == out[j]
        }),
    ensures
        !call_ensures(*occludes, (alpha, scorer.distance(base.row(cand[m].1 as int), cand[l].1), cand[l].0), true),
        rank(cand[m].0) < rank(cand[l].0) || (rank(cand[m].0) == rank(cand[l].0) && cand[m].1 < cand[l].1),
{
    let s = closest_first(cand, p);
    let shade = hides(scorer, base, occludes, alpha);
    let out = pruned(scorer, base, occludes, p, cand, alpha, r);
    lemma_closest_first(cand, p);
    lemma_closest_are_first(cand, p);
    lemma_survivors_greedy(s, shade, r);
    lemma_survivors(s, shade, r);
    law_pruning_respects_r_and_dedups(scorer, base, occludes, p, cand, alpha, r);
    assert(out.contains(out[i]) && out.contains(out[j]));
    let a = choose|a: int| 0 <= a < s.len() && s[a] == cand[m];
    let b = choose|b: int| 0 <= b < s.len() && s[b] == cand[l];
    assert(s[a].1 == out[i] && s[b].1 == out[j]);
    assert(!shade(out[i], s[b]));
    assert(pair_le(s[a], s[b]));
    assert(s[a].1 != s[b].1);
}

/// RobustPrune drops a candidate only for a reason: a kept neighbor that
/// comes before it occludes it, or `r` neighbors are kept that all come
/// before it.
pub proof fn law_pruning_drops_for_a_reason<S: RouteScorer, F: Fn(u32, u32, u32) -> bool>(
    scorer: &S,
    base: FloatVectors,
    occludes: &F,
    p: u32,
    cand: Seq<(u32, u32)>,
    alpha: u32,
    r: nat,
    l: int,
)
    requires
        first_of_its_id(cand, l),
        cand[l].1 != p,
        !pruned(scorer, base, occludes, p, cand, alpha, r).contains(cand[l].1),
    ensures
        ({
            let out = pruned(scorer, base, occludes, p, cand, alpha, r);
            ||| out.len() == r && forall|i: int, m: int|
                #![trigger out[i], cand[m]]
                0 <= i < out.len() && first_of_its_id(cand, m) && cand[m].1 == out[i] ==> comes_before(cand[m], cand[l])
            ||| exists|m: int| #[trigger]
                first_of_its_id(cand, m) && out.contains(cand[m].1) && comes_before(cand[m], cand[l]) && call_ensures(
                    *occludes,
                    (alpha, scorer.distance(base.row(cand[m].1 as int), cand[l].1), cand[l].0),
                    true,
                )
        }),
{
    let s = closest_first(cand, p);
    let shade = hides(scorer, base, occludes, alpha);
    let out = pruned(scorer, base, occludes, p, cand, alpha, r);
    lemma_closest_first(cand, p);
    lemma_closest_are_first(cand, p);
    lemma_survivors_greedy(s, shade, r);
    law_pruning_respects_r_and_dedups(scorer, base, occludes, p, cand, alpha, r);
    let b = choose|b: int| 0 <= b < s.len() && s[b] == cand[l];
    assert(!out.contains(s[b].1));
    if exists|i: int, a: int|
        #![trigger out[i], s[a]]
        0 <= i < out.len() && 0 <= a < b && s[a].1 == out[i] && shade(out[i], s[b]) {
        let (i, a) = choose|i: int, a: int|
            #![trigger out[i], s[a]]
            0 <= i < out.len() && 0 <= a < b && s[a].1 == out[i] && shade(out[i], s[b]);
        assert(occurs_first(cand, s[a]));
        let m = choose|m: int| #[trigger] first_of_its_id(cand, m) && cand[m] == s[a];
        assert(pair_le(s[a], s[b]));
        assert(s[a].1 != s[b].1);
        assert(out.contains(out[i]));
        assert(first_of_its_id(cand, m) && out.contains(cand[m].1) && comes_before(cand[m], cand[l]));
    } else {
        assert(out.len() == r);
        assert forall|i: int, m: int|
            #![trigger out[i], cand[m]]
            0 <= i < out.len() && first_of_its_id(cand, m) && cand[m].1 == out[i] implies comes_before(
            cand[m],
            cand[l],
        ) by {
            assert(out.contains(out[i]));
            let a = choose|a: int| 0 <= a < s.len() && s[a] == cand[m];
            assert(s[a].1 == out[i]);
            assert(pair_le(s[a], s[b]));
            assert(s[a].1 != s[b].1);
        }
    }
}

/// The candidates come up closest first, each id once.
proof fn lemma_closest_are_first(cand: Seq<(u32, u32)>, p: u32)
    ensures
        in_order(closest_first(cand, p)),
        forall|m: int| #[trigger]
            first_of_its_id(cand, m) && cand[m].1 != p ==> closest_first(cand, p).contains(cand[m]),
        forall|i: int|
            0 <= i < closest_first(cand, p).len() ==> occurs_first(cand, #[trigger] closest_first(cand, p)[i]),
{
    let fresh = fresh_candidates(cand, p);
    let s = closest_first(cand, p);
    let k = fresh.len() + 1;
    lemma_fresh_are_first(cand, p);
    lemma_kept_in_order(fresh, k);
    lemma_kept_offered(fresh, k);
    lemma_all_kept(fresh, k);
    fresh.to_multiset_ensures();
    s.to_multiset_ensures();
    assert forall|m: int| #[trigger] first_of_its_id(cand, m) && cand[m].1 != p implies s.contains(cand[m]) by {
        assert(fresh.contains(cand[m]));
        assert(fresh.to_multiset().count(cand[m]) > 0);
        assert(s.to_multiset().count(cand[m]) > 0);
    }
    assert forall|i: int| 0 <= i < s.len() implies occurs_first(cand, #[trigger] s[i]) by {
        assert(fresh.contains(s[i]));
        let k = choose|k: int| 0 <= k < fresh.len() && fresh[k] == s[i];
        assert(occurs_first(cand, fresh[k]));
    }
}

/// The entry point: the first of the points that are closest to `mean`.
pub fn find_medoid<S: RouteScorer>(scorer: &S, mean: &[u32], n: usize) -> (m: u32)
    requires
        0 < n <= u32::MAX,
        covers_all(scorer, mean@, n as nat),
    ensures
        m < n,
        forall|i: u32| i < n ==> rank(scorer.distance(mean@, m)) <= rank(#[trigger] scorer.distance(mean@, i)),
        forall|i: u32| i < m ==> rank(scorer.distance(mean@, m)) < rank(#[trigger] scorer.distance(mean@, i)),
{
    let mut m: u32 = 0;
    let mut best: i64 = total_rank(scorer.score(mean, 0));
    let mut i: usize = 1;
    while i < n
        invariant
            1 <= i <= n <= u32::MAX,
            m < i,
            covers_all(scorer, mean@, n as nat),
            best == rank(scorer.distance(mean@, m)),
            forall|j: u32| j < i ==> best <= rank(#[trigger] scorer.distance(mean@, j)),
            forall|j: u32| j < m ==> best < rank(#[trigger] scorer.distance(mean@, j)),
        decreases n - i,
    {
        let d: i64 = total_rank(scorer.score(mean, i as u32));
        if d < best {
            best = d;
            m = i as u32;
        }
        i += 1;
    }
    m
}

/// The neighbors of `nb` once `p` has named it as a neighbor: `p` itself
/// joins; where there is no room, the neighbors are pruned.
pub open spec fn linked<S: RouteScorer, F: Fn(u32, u32, u32) -> bool>(
    scorer: &S,
    base: FloatVectors,
    occludes: &F,
    nb: u32,
    list: Seq<u32>,
    p: u32,
    alpha: u32,
    r: nat,
) -> Seq<u32> {
    if list.contains(p) {
        list
    } else if list.len() < r {
        list.push(p)
    } else {
        pruned(scorer, base, occludes, nb, measured_from(scorer, base, nb, list.push(p)), alpha, r)
    }
}

/// Appends the points of a list with their distances from `i`.
fn push_measured<S: RouteScorer>(
    scorer: &S,
    base: &FloatVectors,
    i: u32,
    ids: &[u32],
    out: &mut Vec<(u32, u32)>,
)
    requires
        base.wf(),
        i < base.count,
        all_apart(scorer, *base),
        in_range(ids@, base.count as nat),
    ensures
        final(out)@ == old(out)@ + measured_from(scorer, *base, i, ids@),
{
    let ghost before = out@;
    let ghost all = measured_from(scorer, *base, i, ids@);
    let query = base.get(i as usize);
    assert(covers_all(scorer, base.row(i as int), base.count as nat));
    let mut k: usize = 0;
    assert(out@ =~= before + all.take(0));
    while k < ids.len()
        invariant
            k <= ids@.len(),
            query@ == base.row(i as int),
            covers_all(scorer, query@, base.count as nat),
            in_range(ids@, base.count as nat),
            all == measured_from(scorer, *base, i, ids@),
            out@ == before + all.take(k as int),
        decreases ids@.len() - k,
    {
        assert(ids@[k as int] < base.count);
        let d: u32 = scorer.score(query, ids[k]);
        out.push((d, ids[k]));
        k += 1;
        assert(out@ =~= before + all.take(k as int));
    }
    assert(all.take(k as int) =~= all);
}

/// The neighbors of `nb` once `p` has named it as a neighbor.
pub fn link<S: RouteScorer, F: Fn(u32, u32, u32) -> bool>(
    scorer: &S,
    base: &FloatVectors,
    occludes: &F,
    nb: u32,
    list: &[u32],
    p: u32,
    alpha: u32,
    r: usize,
) -> (out: Vec<u32>)
    requires
        base.wf(),
        all_apart(scorer, *base),
        decisive(occludes),
        nb < base.count,
        p < base.count,
        in_range(list@, base.count as nat),
        1 <= r,
        list@.len() <= r < usize::MAX - 1,
    ensures
        out@ == linked(scorer, *base, occludes, nb, list@, p, alpha, r as nat),
{
    let mut out: Vec<u32> = vstd::slice::slice_to_vec(list);
    if holds(list, p) {
        return out;
    }
    out.push(p);
    if list.len() < r {
        return out;
    }
    let mut cand: Vec<(u32, u32)> = Vec::new();
    proof {
        assert forall|i: int| 0 <= i < out@.len() implies #[trigger] out@[i] < base.count by {
            if i < list@.len() {
                assert(list@[i] < base.count);
            }
        }
    }
    push_measured(scorer, base, nb, out.as_slice(), &mut cand);
    proof {
        assert(cand@ =~= measured_from(scorer, *base, nb, list@.push(p)));
        assert forall|i: int| 0 <= i < cand@.len() implies (#[trigger] cand@[i]).1 < base.count by {
            assert(cand@[i].1 == out@[i]);
        }
    }
    robust_prune(scorer, base, occludes, nb, &cand, alpha, r)
}

/// The neighbors that `p` gets: of what a search for it expanded, and of its
/// neighbors so far.
pub fn choose_neighbors<S: RouteScorer, F: Fn(u32, u32, u32) -> bool>(
    scorer: &S,
    base: &FloatVectors,
    occludes: &F,
    p: u32,
    expanded: &Vec<(u32, u32)>,
    current: &[u32],
    alpha: u32,
    r: usize,
) -> (out: Vec<u32>)
    requires
        base.wf(),
        all_apart(scorer, *base),
        decisive(occludes),
        p < base.count,
        pairs_in_range(expanded@, base.count as nat),
        in_range(current@, base.count as nat),
        expanded@.len() + current@.len() < usize::MAX,
        r >= 1,
    ensures
        out@ == pruned(
            scorer,
            *base,
            occludes,
            p,
            expanded@ + measured_from(scorer, *base, p, current@),
            alpha,
            r as nat,
        ),
{
    let mut cand: Vec<(u32, u32)> = vstd::slice::slice_to_vec(expanded.as_slice());
    push_measured(scorer, base, p, current, &mut cand);
    proof {
        assert forall|i: int| 0 <= i < cand@.len() implies (#[trigger] cand@[i]).1 < base.count by {
            if i < expanded@.len() {
                assert(cand@[i] == expanded@[i]);
            } else {
                assert(cand@[i].1 == current@[i - expanded@.len()]);
            }
        }
    }
    robust_prune(scorer, base, occludes, p, &cand, alpha, r)
}

/// The lists of an adjacency.
pub open spec fn lists_view(adj: Seq<Vec<u32>>) -> Seq<Seq<u32>> {
    Seq::new(adj.len(), |i: int| adj[i]@)
}

/// The adjacency after the first `upto` of `p`'s neighbors have linked back.
pub open spec fn woven<S: RouteScorer, F: Fn(u32, u32, u32) -> bool>(
    scorer: &S,
    base: FloatVectors,
    occludes: &F,
    adj: Seq<Seq<u32>>,
    p: u32,
    nbs: Seq<u32>,
    upto: nat,
    alpha: u32,
    r: nat,
) -> Seq<Seq<u32>>
    decreases upto,
{
    if upto == 0 {
        adj
    } else {
        let before = woven(scorer, base, occludes, adj, p, nbs, (upto - 1) as nat, alpha, r);
        let nb = nbs[upto - 1];
        before.update(nb as int, linked(scorer, base, occludes, nb, before[nb as int], p, alpha, r))
    }
}

/// The adjacency after `p` was inserted, given what the search for it
/// expanded.
pub open spec fn inserted<S: RouteScorer, F: Fn(u32, u32, u32) -> bool>(
    scorer: &S,
    base: FloatVectors,
    occludes: &F,
    adj: Seq<Seq<u32>>,
    p: u32,
    expanded: Seq<(u32, u32)>,
    alpha: u32,
    r: nat,
) -> Seq<Seq<u32>> {
    let cand = expanded + measured_from(scorer, base, p, adj[p as int]);
    let nbs = pruned(scorer, base, occludes, p, cand, alpha, r);
    woven(scorer, base, occludes, adj.update(p as int, nbs), p, nbs, nbs.len(), alpha, r)
}

/// Every node has at most `r` neighbors, all of them nodes, none twice, and
/// none the node itself.
pub open spec fn graph_sound(adj: Seq<Seq<u32>>, n: nat, r: nat) -> bool {
    &&& adj.len() == n
    &&& forall|i: int| 0 <= i < n ==> list_sound(#[trigger] adj[i], i, n, r)
}

pub open spec fn list_sound(list: Seq<u32>, i: int, n: nat, r: nat) -> bool {
    &&& list.len() <= r
    &&& in_range(list, n)
    &&& list.no_duplicates()
    &&& forall|k: int| 0 <= k < list.len() ==> #[trigger] list[k] != i
}

/// Pruned lists are sound.
proof fn lemma_pruned_sound<S: RouteScorer, F: Fn(u32, u32, u32) -> bool>(
    scorer: &S,
    base: FloatVectors,
    occludes: &F,
    p: u32,
    cand: Seq<(u32, u32)>,
    alpha: u32,
    r: nat,
    n: nat,
)
    requires
        pairs_in_range(cand, n),
    ensures
        list_sound(pruned(scorer, base, occludes, p, cand, alpha, r), p as int, n, r),
{
    let out = pruned(scorer, base, occludes, p, cand, alpha, r);
    law_pruning_respects_r_and_dedups(scorer, base, occludes, p, cand, alpha, r);
    assert forall|i: int| 0 <= i < out.len() implies #[trigger] out[i] < n && out[i] != p by {
        assert(names(cand, out[i]));
        let k = choose|k: int| 0 <= k < cand.len() && (#[trigger] cand[k]).1 == out[i];
        assert(cand[k].1 < n);
        if out[i] == p {
            assert(out.contains(p));
        }
    }
}

/// Linking keeps a list sound.
proof fn lemma_linked_sound<S: RouteScorer, F: Fn(u32, u32, u32) -> bool>(
    scorer: &S,
    base: FloatVectors,
    occludes: &F,
    nb: u32,
    list: Seq<u32>,
    p: u32,
    alpha: u32,
    r: nat,
    n: nat,
)
    requires
        list_sound(list, nb as int, n, r),
        p < n,
        p != nb,
    ensures
        list_sound(linked(scorer, base, occludes, nb, list, p, alpha, r), nb as int, n, r),
{
    let longer = list.push(p);
    assert forall|i: int| 0 <= i < longer.len() implies #[trigger] longer[i] < n && longer[i] != nb by {
        if i < list.len() {
            assert(longer[i] == list[i]);
        }
    }
    if list.contains(p) {
    } else if list.len() < r {
        assert(longer.no_duplicates()) by {
            assert forall|i: int| 0 <= i < list.len() implies list[i] != p by {
                assert(list.contains(list[i]));
            }
        }
    } else {
        let cand = measured_from(scorer, base, nb, longer);
        assert forall|i: int| 0 <= i < cand.len() implies (#[trigger] cand[i]).1 < n by {
            assert(cand[i].1 == longer[i]);
        }
        lemma_pruned_sound(scorer, base, occludes, nb, cand, alpha, r, n);
    }
}

/// Linking back keeps the adjacency sound.
proof fn lemma_woven_sound<S: RouteScorer, F: Fn(u32, u32, u32) -> bool>(
    scorer: &S,
    base: FloatVectors,
    occludes: &F,
    adj: Seq<Seq<u32>>,
    p: u32,
    nbs: Seq<u32>,
    upto: nat,
    alpha: u32,
    r: nat,
    n: nat,
)
    requires
        graph_sound(adj, n, r),
        p < n,
        upto <= nbs.len(),
        list_sound(nbs, p as int, n, r),
    ensures
        graph_sound(woven(scorer, base, occludes, adj, p, nbs, upto, alpha, r), n, r),
    decreases upto,
{
    if upto > 0 {
        lemma_woven_sound(scorer, base, occludes, adj, p, nbs, (upto - 1) as nat, alpha, r, n);
        let before = woven(scorer, base, occludes, adj, p, nbs, (upto - 1) as nat, alpha, r);
        let after = woven(scorer, base, occludes, adj, p, nbs, upto, alpha, r);
        let nb = nbs[upto - 1];
        assert(list_sound(before[nb as int], nb as int, n, r));
        lemma_linked_sound(scorer, base, occludes, nb, before[nb as int], p, alpha, r, n);
        assert forall|i: int| 0 <= i < n implies list_sound(#[trigger] after[i], i, n, r) by {
            if i != nb as int {
                assert(after[i] == before[i]);
            }
        }
    }
}

/// Inserting a point keeps the adjacency sound.
pub proof fn law_insert_keeps_graph_sound<S: RouteScorer, F: Fn(u32, u32, u32) -> bool>(
    scorer: &S,
    base: FloatVectors,
    occludes: &F,
    adj: Seq<Seq<u32>>,
    p: u32,
    expanded: Seq<(u32, u32)>,
    alpha: u32,
    r: nat,
    n: nat,
)
    requires
        graph_sound(adj, n, r),
        p < n,
        pairs_in_range(expanded, n),
    ensures
        graph_sound(inserted(scorer, base, occludes, adj, p, expanded, alpha, r), n, r),
{
    let cand = expanded + measured_from(scorer, base, p, adj[p as int]);
    assert(list_sound(adj[p as int], p as int, n, r));
    assert forall|i: int| 0 <= i < cand.len() implies (#[trigger] cand[i]).1 < n by {
        if i < expanded.len() {
            assert(cand[i] == expanded[i]);
        } else {
            assert(cand[i].1 == adj[p as int][i - expanded.len()]);
        }
    }
    let nbs = pruned(scorer, base, occludes, p, cand, alpha, r);
    lemma_pruned_sound(scorer, base, occludes, p, cand, alpha, r, n);
    let with = adj.update(p as int, nbs);
    assert forall|i: int| 0 <= i < n implies list_sound(#[trigger] with[i], i, n, r) by {
        if i != p as int {
            assert(with[i] == adj[i]);
        }
    }
    lemma_woven_sound(scorer, base, occludes, with, p, nbs, nbs.len(), alpha, r, n);
}

/// The neighbors of a node are those that the adjacency has.
pub open spec fn listed(adj: Seq<Seq<u32>>) -> spec_fn(u32, Seq<u32>) -> bool {
    |id: u32, l: Seq<u32>| l == adj[id as int]
}

/// Inserting `p` into `adj` gives `next`: a search for `p` from the entry
/// point, along the adjacency, expands the candidates.
pub open spec fn inserts<S: RouteScorer, F: Fn(u32, u32, u32) -> bool>(
    scorer: &S,
    base: FloatVectors,
    occludes: &F,
    medoid: u32,
    l_build: nat,
    alpha: u32,
    r: nat,
    adj: Seq<Seq<u32>>,
    p: u32,
    next: Seq<Seq<u32>>,
) -> bool {
    exists|rounds: Seq<Seq<Seq<u32>>>, end: Beam|
        #[trigger] Beam::seeded(medoid, apart(scorer, base, p, medoid)).settles(
            l_build,
            1,
            scores(scorer, base.row(p as int)),
            rounds,
            listed(adj),
            end,
        ) && next == inserted(scorer, base, occludes, adj, p, end.expanded, alpha, r)
}

/// A copy of a node's neighbors.
fn copied(adj: &Vec<Vec<u32>>, id: u32) -> (v: Vec<u32>)
    requires
        id < adj@.len(),
    ensures
        v@ == adj@[id as int]@,
{
    vstd::slice::slice_to_vec(adj[id as usize].as_slice())
}

/// Inserts a point: search for it, prune what the search expanded to its
/// neighbors, and link these back.
pub fn insert_point<S: RouteScorer, F: Fn(u32, u32, u32) -> bool>(
    scorer: &S,
    base: &FloatVectors,
    occludes: &F,
    adj: &mut Vec<Vec<u32>>,
    medoid: u32,
    p: u32,
    alpha: u32,
    params: &BuildParams,
    scratch: &mut SearchScratch,
)
    requires
        base.wf(),
        base.count <= u32::MAX,
        base.count + params.r < usize::MAX,
        all_apart(scorer, *base),
        decisive(occludes),
        medoid < base.count,
        p < base.count,
        params.r >= 1,
        params.r <= 255,
        params.l_build >= 1,
        graph_sound(lists_view(old(adj)@), base.count as nat, params.r as nat),
        old(scratch).wf(),
        old(scratch).nodes() == base.count,
    ensures
        final(scratch).wf(),
        final(scratch).nodes() == base.count,
        graph_sound(lists_view(final(adj)@), base.count as nat, params.r as nat),
        inserts(
            scorer,
            *base,
            occludes,
            medoid,
            params.l_build as nat,
            alpha,
            params.r as nat,
            lists_view(old(adj)@),
            p,
            lists_view(final(adj)@),
        ),
{
    let ghost n = base.count as nat;
    let ghost r = params.r as nat;
    let ghost before = lists_view(adj@);
    let q = base.get(p as usize);
    let ghost score = scores(scorer, q@);
    let ghost start = Beam::seeded(medoid, score(medoid));
    assert(covers_all(scorer, base.row(p as int), n));
    assert forall|i: int| 0 <= i < n implies list_sound(adj@[i]@, i, n, r) by {
        assert(before[i] == adj@[i]@);
    }
    let shared: &Vec<Vec<u32>> = adj;
    let neighbors = |id: u32| -> (v: Vec<u32>)
        requires
            id < shared@.len(),
        ensures
            v@ == shared@[id as int]@,
        { copied(shared, id) };
    beam_search(scorer, q, medoid, params.l_build, &neighbors, scratch);
    let ghost end = scratch@;
    let ghost rounds = choose|rounds: Seq<Seq<Seq<u32>>>|
        #[trigger] start.settles(params.l_build as nat, 1, score, rounds, answered_by(neighbors), end);
    proof {
        assert forall|id: u32, l: Seq<u32>| id < n && #[trigger] answered_by(neighbors)(id, l) implies listed(before)(
            id,
            l,
        ) && in_range(l, n) by {
            let v = choose|v: Vec<u32>| v@ == l && #[trigger] call_ensures(neighbors, (id,), v);
            assert(l == before[id as int]);
            assert(list_sound(before[id as int], id as int, n, r));
        }
        lemma_seeded(medoid, score(medoid), score);
        lemma_trace_weaken(start, params.l_build as nat, 1, score, rounds, answered_by(neighbors), listed(before), n);
        lemma_run(start, params.l_build as nat, 1, score, rounds);
        assert(start.settles(params.l_build as nat, 1, score, rounds, listed(before), end));
        assert(end.below(n));
        crate::beam::lemma_expanded_bound(end, n);
        assert forall|i: int| 0 <= i < end.expanded.len() implies (#[trigger] end.expanded[i]).1 < n by {
            assert(end.visited.contains(end.expanded[i].1));
        }
        law_insert_keeps_graph_sound(scorer, *base, occludes, before, p, end.expanded, alpha, r, n);
    }
    let expanded = scratch.expanded_pairs();
    assert(list_sound(before[p as int], p as int, n, r));
    let new_nb = choose_neighbors(
        scorer,
        base,
        occludes,
        p,
        &expanded,
        adj[p as usize].as_slice(),
        alpha,
        params.r,
    );
    let ghost nbs = new_nb@;
    let ghost cand = end.expanded + measured_from(scorer, *base, p, before[p as int]);
    proof {
        assert forall|i: int| 0 <= i < cand.len() implies (#[trigger] cand[i]).1 < n by {
            if i < end.expanded.len() {
                assert(cand[i] == end.expanded[i]);
            } else {
                assert(cand[i].1 == before[p as int][i - end.expanded.len()]);
            }
        }
        lemma_pruned_sound(scorer, *base, occludes, p, cand, alpha, r, n);
    }
    adj.set(p as usize, vstd::slice::slice_to_vec(new_nb.as_slice()));
    let ghost with = before.update(p as int, nbs);
    proof {
        assert(lists_view(adj@) =~= with);
        assert forall|i: int| 0 <= i < n implies list_sound(#[trigger] with[i], i, n, r) by {
            if i != p as int {
                assert(with[i] == before[i]);
                assert(list_sound(before[i], i, n, r));
            }
        }
    }
    let mut k: usize = 0;
    while k < new_nb.len()
        invariant
            k <= nbs.len(),
            new_nb@ == nbs,
            n == base.count,
            r == params.r,
            base.wf(),
            params.r >= 1,
            params.r <= 255,
            params.r < usize::MAX - 1,
            all_apart(scorer, *base),
            decisive(occludes),
            p < n,
            adj@.len() == n,
            list_sound(nbs, p as int, n, r),
            graph_sound(with, n, r),
            graph_sound(lists_view(adj@), n, r),
            lists_view(adj@) == woven(scorer, *base, occludes, with, p, nbs, k as nat, alpha, r),
        decreases nbs.len() - k,
    {
        let nb: u32 = new_nb[k];
        let ghost now = lists_view(adj@);
        proof {
            assert(nbs[k as int] < n && nbs[k as int] != p as int);
            assert(list_sound(now[nb as int], nb as int, n, r));
            assert(now[nb as int] == adj@[nb as int]@);
        }
        let list = link(scorer, base, occludes, nb, adj[nb as usize].as_slice(), p, alpha, params.r);
        adj.set(nb as usize, list);
        k += 1;
        proof {
            lemma_woven_sound(scorer, *base, occludes, with, p, nbs, k as nat, alpha, r, n);
            assert(lists_view(adj@) =~= now.update(nb as int, list@));
        }
    }
    proof {
        assert(start == Beam::seeded(medoid, apart(scorer, *base, p, medoid)));
        assert(start.settles(params.l_build as nat, 1, scores(scorer, base.row(p as int)), rounds, listed(before), end));
        assert(lists_view(adj@) == inserted(scorer, *base, occludes, before, p, end.expanded, alpha, r));
    }
}

/// Inserting a point has one outcome.
pub proof fn law_insert_is_deterministic<S: RouteScorer, F: Fn(u32, u32, u32) -> bool>(
    scorer: &S,
    base: FloatVectors,
    occludes: &F,
    medoid: u32,
    l_build: nat,
    alpha: u32,
    r: nat,
    adj: Seq<Seq<u32>>,
    p: u32,
    a: Seq<Seq<u32>>,
    b: Seq<Seq<u32>>,
)
    requires
        inserts(scorer, base, occludes, medoid, l_build, alpha, r, adj, p, a),
        inserts(scorer, base, occludes, medoid, l_build, alpha, r, adj, p, b),
    ensures
        a == b,
{
    let start = Beam::seeded(medoid, apart(scorer, base, p, medoid));
    let score = scores(scorer, base.row(p as int));
    let (rounds_a, end_a) = choose|rounds: Seq<Seq<Seq<u32>>>, end: Beam|
        #[trigger] start.settles(l_build, 1, score, rounds, listed(adj), end) && a == inserted(
            scorer,
            base,
            occludes,
            adj,
            p,
            end.expanded,
            alpha,
            r,
        );
    let (rounds_b, end_b) = choose|rounds: Seq<Seq<Seq<u32>>>, end: Beam|
        #[trigger] start.settles(l_build, 1, score, rounds, listed(adj), end) && b == inserted(
            scorer,
            base,
            occludes,
            adj,
            p,
            end.expanded,
            alpha,
            r,
        );
    law_search_is_deterministic(start, l_build, 1, score, listed(adj), rounds_a, end_a, rounds_b, end_b);
}

/// A pass inserts the points of `order` one after the other; `trail` holds
/// the adjacency before and after each of them.
pub open spec fn passes<S: RouteScorer, F: Fn(u32, u32, u32) -> bool>(
    scorer: &S,
    base: FloatVectors,
    occludes: &F,
    medoid: u32,
    l_build: nat,
    alpha: u32,
    r: nat,
    order: Seq<u32>,
    trail: Seq<Seq<Seq<u32>>>,
) -> bool {
    &&& trail.len() == order.len() + 1
    &&& forall|i: int|
        0 <= i < order.len() ==> inserts(
            scorer,
            base,
            occludes,
            medoid,
            l_build,
            alpha,
            r,
            trail[i],
            #[trigger] order[i],
            trail[i + 1],
        )
}

/// Goes through the points once.
fn run_pass<S: RouteScorer, F: Fn(u32, u32, u32) -> bool>(
    scorer: &S,
    base: &FloatVectors,
    occludes: &F,
    adj: &mut Vec<Vec<u32>>,
    medoid: u32,
    seed: u64,
    alpha: u32,
    params: &BuildParams,
    scratch: &mut SearchScratch,
)
    requires
        base.wf(),
        0 < base.count < u32::MAX,
        base.count + params.r < usize::MAX,
        all_apart(scorer, *base),
        decisive(occludes),
        medoid < base.count,
        params.r >= 1,
        params.r <= 255,
        params.l_build >= 1,
        graph_sound(lists_view(old(adj)@), base.count as nat, params.r as nat),
        old(scratch).wf(),
        old(scratch).nodes() == base.count,
    ensures
        final(scratch).wf(),
        final(scratch).nodes() == base.count,
        graph_sound(lists_view(final(adj)@), base.count as nat, params.r as nat),
        exists|trail: Seq<Seq<Seq<u32>>>|
            #[trigger] passes(
                scorer,
                *base,
                occludes,
                medoid,
                params.l_build as nat,
                alpha,
                params.r as nat,
                pass_order(base.count as nat, seed),
                trail,
            ) && trail.first() == lists_view(old(adj)@) && trail.last() == lists_view(final(adj)@),
{
    let ghost n = base.count as nat;
    let ghost r = params.r as nat;
    let ghost l = params.l_build as nat;
    let order = permutation(base.count, seed);
    let ghost mut trail: Seq<Seq<Seq<u32>>> = seq![lists_view(adj@)];
    let mut i: usize = 0;
    while i < order.len()
        invariant
            i <= order@.len(),
            order@ == pass_order(n, seed),
            forall|k: int| 0 <= k < order@.len() ==> #[trigger] order@[k] < n,
            n == base.count,
            r == params.r,
            l == params.l_build,
            base.wf(),
            0 < base.count < u32::MAX,
            base.count + params.r < usize::MAX,
            all_apart(scorer, *base),
            decisive(occludes),
            medoid < base.count,
            params.r >= 1,
            params.r <= 255,
            params.l_build >= 1,
            graph_sound(lists_view(adj@), n, r),
            scratch.wf(),
            scratch.nodes() == base.count,
            trail.len() == i + 1,
            trail.first() == lists_view(old(adj)@),
            trail.last() == lists_view(adj@),
            forall|k: int|
                0 <= k < i ==> inserts(
                    scorer,
                    *base,
                    occludes,
                    medoid,
                    l,
                    alpha,
                    r,
                    trail[k],
                    #[trigger] order@[k],
                    trail[k + 1],
                ),
        decreases order@.len() - i,
    {
        let p: u32 = order[i];
        assert(order@[i as int] < n);
        let ghost before = trail;
        insert_point(scorer, base, occludes, adj, medoid, p, alpha, params, scratch);
        proof {
            trail = trail.push(lists_view(adj@));
            assert forall|k: int| 0 <= k < i + 1 implies inserts(
                scorer,
                *base,
                occludes,
                medoid,
                l,
                alpha,
                r,
                trail[k],
                #[trigger] order@[k],
                trail[k + 1],
            ) by {
                assert(trail[k] == before[k]);
                if k < i {
                    assert(trail[k + 1] == before[k + 1]);
                } else {
                    assert(before[k] == before.last());
                }
            }
        }
        i += 1;
    }
    assert(passes(scorer, *base, occludes, medoid, l, alpha, r, pass_order(n, seed), trail));
}

/// Builds the graph. `mean` is the mean of the points, and `occludes` the
/// test that pruning makes, given the slack, the distance between a kept
/// point and a candidate, and the candidate's own distance.
///
/// A first pass with slack 1.0 builds a navigable approximation cheaply; a
/// second re-prunes every node with the target slack.
pub fn build<S: RouteScorer, F: Fn(u32, u32, u32) -> bool>(
    scorer: &S,
    base: &FloatVectors,
    mean: &[u32],
    occludes: &F,
    params: &BuildParams,
) -> (g: VamanaGraph)
    requires
        base.wf(),
        0 < base.count < u32::MAX,
        base.count * params.r <= usize::MAX,
        base.count + params.r < usize::MAX,
        2 <= params.r <= 255,
        params.l_build >= params.r,
        all_apart(scorer, *base),
        decisive(occludes),
        covers_all(scorer, mean@, base.count as nat),
    ensures
        g.wf(),
        g.nodes() == base.count,
        g.r == params.r,
        g.medoid < base.count,
        forall|i: u32|
            i < base.count ==> rank(scorer.distance(mean@, g.medoid)) <= rank(#[trigger] scorer.distance(mean@, i)),
        forall|i: u32|
            i < g.medoid ==> rank(scorer.distance(mean@, g.medoid)) < rank(#[trigger] scorer.distance(mean@, i)),
        forall|i: int| 0 <= i < base.count ==> list_sound(#[trigger] g.list(i), i, base.count as nat, params.r as nat),
        exists|first: Seq<Seq<Seq<u32>>>, second: Seq<Seq<Seq<u32>>>|
            built(scorer, *base, occludes, *params, g, first, second),
{
    let n: usize = base.count;
    let medoid: u32 = find_medoid(scorer, mean, n);
    let mut adj: Vec<Vec<u32>> = Vec::new();
    let mut i: usize = 0;
    while i < n
        invariant
            i <= n,
            adj@.len() == i,
            forall|k: int| 0 <= k < i ==> (#[trigger] adj@[k])@ == Seq::<u32>::empty(),
        decreases n - i,
    {
        adj.push(Vec::new());
        i += 1;
    }
    let ghost start = lists_view(adj@);
    assert(start =~= Seq::new(n as nat, |i: int| Seq::<u32>::empty()));
    let mut scratch = SearchScratch::new(n);
    run_pass(scorer, base, occludes, &mut adj, medoid, 42, ONE, params, &mut scratch);
    let ghost middle = lists_view(adj@);
    let ghost first = choose|trail: Seq<Seq<Seq<u32>>>|
        #[trigger] passes(
            scorer,
            *base,
            occludes,
            medoid,
            params.l_build as nat,
            ONE,
            params.r as nat,
            pass_order(n as nat, 42),
            trail,
        ) && trail.first() == start && trail.last() == middle;
    run_pass(scorer, base, occludes, &mut adj, medoid, 43, params.alpha, params, &mut scratch);
    let ghost last = lists_view(adj@);
    let ghost second = choose|trail: Seq<Seq<Seq<u32>>>|
        #[trigger] passes(
            scorer,
            *base,
            occludes,
            medoid,
            params.l_build as nat,
            params.alpha,
            params.r as nat,
            pass_order(n as nat, 43),
            trail,
        ) && trail.first() == middle && trail.last() == last;
    let ghost lists = adj@;
    proof {
        assert forall|i: int| 0 <= i < n implies list_sound((#[trigger] lists[i])@, i, n as nat, params.r as nat) by {
            assert(last[i] == lists[i]@);
        }
    }
    let g = VamanaGraph::from_adjacency(params.r, medoid, adj);
    proof {
        assert forall|i: int| 0 <= i < n implies #[trigger] g.list(i) == last[i] by {
            assert(g.list(i) == lists[i]@);
        }
        assert forall|i: int| 0 <= i < n implies list_sound(
            #[trigger] g.list(i),
            i,
            n as nat,
            params.r as nat,
        ) by {
            assert(list_sound(lists[i]@, i, n as nat, params.r as nat));
        }
        assert(built(scorer, *base, occludes, *params, g, first, second));
    }
    g
}

/// The graph is what two passes over the points make of an empty adjacency.
pub open spec fn built<S: RouteScorer, F: Fn(u32, u32, u32) -> bool>(
    scorer: &S,
    base: FloatVectors,
    occludes: &F,
    params: BuildParams,
    g: VamanaGraph,
    first: Seq<Seq<Seq<u32>>>,
    second: Seq<Seq<Seq<u32>>>,
) -> bool {
    let n = base.count as nat;
    let l = params.l_build as nat;
    let r = params.r as nat;
    &&& passes(scorer, base, occludes, g.medoid, l, ONE, r, pass_order(n, 42), first)
    &&& first.first() == Seq::new(n, |i: int| Seq::<u32>::empty())
    &&& passes(scorer, base, occludes, g.medoid, l, params.alpha, r, pass_order(n, 43), second)
    &&& second.first() == first.last()
    &&& forall|i: int| 0 <= i < n ==> #[trigger] g.list(i) == second.last()[i]
}

/// Whatever id a candidate names has a first candidate.
proof fn lemma_has_first(cand: Seq<(u32, u32)>, id: u32) -> (m: int)
    requires
        names(cand, id),
    ensures
        first_of_its_id(cand, m),
        cand[m].1 == id,
    decreases cand.len(),
{
    let init = cand.drop_last();
    if names(init, id) {
        let m = lemma_has_first(init, id);
        assert forall|x: int| 0 <= x < m implies (#[trigger] cand[x]).1 != cand[m].1 by {
            assert(init[x].1 != init[m].1);
        }
        m
    } else {
        let m = cand.len() - 1;
        let k = choose|k: int| 0 <= k < cand.len() && (#[trigger] cand[k]).1 == id;
        if k < m {
            assert(init[k].1 == id);
        }
        assert forall|x: int| 0 <= x < m implies (#[trigger] cand[x]).1 != cand[m].1 by {
            assert(init[x] == cand[x]);
        }
        m
    }
}

/// When `p` has named `nb` as a neighbor, `p` joins the neighbors of `nb`, and
/// none of them leaves, as long as there is room. Where there is none, the
/// neighbors that stay, of the old ones and `p`, come closest first, none of
/// them occludes one behind it, and each that leaves is occluded by one that
/// stays, or `r` stay.
pub proof fn law_linking_back<S: RouteScorer, F: Fn(u32, u32, u32) -> bool>(
    scorer: &S,
    base: FloatVectors,
    occludes: &F,
    nb: u32,
    list: Seq<u32>,
    p: u32,
    alpha: u32,
    r: nat,
)
    ensures
        ({
            let out = linked(scorer, base, occludes, nb, list, p, alpha, r);
            &&& list.contains(p) ==> out == list
            &&& !list.contains(p) && list.len() < r ==> out.len() == list.len() + 1 && out.take(list.len() as int)
                == list && out.last() == p
            &&& !list.contains(p) && list.len() >= r ==> {
                &&& out.len() <= r
                &&& out.no_duplicates()
                &&& forall|i: int|
                    0 <= i < out.len() ==> #[trigger] out[i] != nb && (out[i] == p || list.contains(out[i]))
                &&& forall|i: int, j: int|
                    0 <= i < j < out.len() ==> !call_ensures(
                        *occludes,
                        (
                            alpha,
                            scorer.distance(base.row(#[trigger] out[i] as int), #[trigger] out[j]),
                            scorer.distance(base.row(nb as int), out[j]),
                        ),
                        true,
                    )
                &&& forall|i: int, j: int|
                    0 <= i < j < out.len() ==> rank(scorer.distance(base.row(nb as int), #[trigger] out[i])) <= rank(
                        scorer.distance(base.row(nb as int), #[trigger] out[j]),
                    )
                &&& forall|x: u32|
                    (x == p || list.contains(x)) && x != nb && !#[trigger] out.contains(x) ==> out.len() == r
                        || exists|i: int|
                        0 <= i < out.len() && call_ensures(
                            *occludes,
                            (
                                alpha,
                                scorer.distance(base.row(#[trigger] out[i] as int), x),
                                scorer.distance(base.row(nb as int), x),
                            ),
                            true,
                        )
            }
        }),
{
    let out = linked(scorer, base, occludes, nb, list, p, alpha, r);
    if list.contains(p) {
    } else if list.len() < r {
        assert(out.take(list.len() as int) =~= list);
    } else {
        let longer = list.push(p);
        let cand = measured_from(scorer, base, nb, longer);
        law_pruning_respects_r_and_dedups(scorer, base, occludes, nb, cand, alpha, r);
        assert forall|i: int| 0 <= i < out.len() implies #[trigger] out[i] != nb && (out[i] == p || list.contains(
            out[i],
        )) by {
            assert(out.contains(out[i]));
            let m = lemma_has_first(cand, out[i]);
            assert(longer[m] == out[i]);
            if m < list.len() {
                assert(list[m] == out[i]);
            }
        }
        assert forall|i: int, j: int| 0 <= i < j < out.len() implies !call_ensures(
            *occludes,
            (
                alpha,
                scorer.distance(base.row(#[trigger] out[i] as int), #[trigger] out[j]),
                scorer.distance(base.row(nb as int), out[j]),
            ),
            true,
        ) && rank(scorer.distance(base.row(nb as int), out[i])) <= rank(
            scorer.distance(base.row(nb as int), out[j]),
        ) by {
            let m = lemma_has_first(cand, out[i]);
            let l = lemma_has_first(cand, out[j]);
            law_pruning_keeps_none_occluded(scorer, base, occludes, nb, cand, alpha, r, i, j, m, l);
        }
        assert forall|x: u32|
            (x == p || list.contains(x)) && x != nb && !#[trigger] out.contains(x) implies out.len() == r
            || exists|i: int|
            0 <= i < out.len() && call_ensures(
                *occludes,
                (
                    alpha,
                    scorer.distance(base.row(#[trigger] out[i] as int), x),
                    scorer.distance(base.row(nb as int), x),
                ),
                true,
            ) by {
            if x == p {
                assert(cand[list.len() as int].1 == x);
            } else {
                let k = choose|k: int| 0 <= k < list.len() && list[k] == x;
                assert(cand[k].1 == x);
            }
            let l = lemma_has_first(cand, x);
            law_pruning_drops_for_a_reason(scorer, base, occludes, nb, cand, alpha, r, l);
            if out.len() != r {
                let m = choose|m: int| #[trigger]
                    first_of_its_id(cand, m) && out.contains(cand[m].1) && comes_before(cand[m], cand[l])
                        && call_ensures(
                        *occludes,
                        (alpha, scorer.distance(base.row(cand[m].1 as int), cand[l].1), cand[l].0),
                        true,
                    );
                let i = choose|i: int| 0 <= i < out.len() && out[i] == cand[m].1;
                assert(call_ensures(
                    *occludes,
                    (
                        alpha,
                        scorer.distance(base.row(out[i] as int), x),
                        scorer.distance(base.row(nb as int), x),
                    ),
                    true,
                ));
            }
        }
    }
}

/// Linking back changes the lists of the neighbors, each once, and no other.
proof fn lemma_woven_lists<S: RouteScorer, F: Fn(u32, u32, u32) -> bool>(
    scorer: &S,
    base: FloatVectors,
    occludes: &F,
    adj: Seq<Seq<u32>>,
    p: u32,
    nbs: Seq<u32>,
    upto: nat,
    alpha: u32,
    r: nat,
)
    requires
        upto <= nbs.len(),
        nbs.no_duplicates(),
        in_range(nbs, adj.len()),
    ensures
        ({
            let next = woven(scorer, base, occludes, adj, p, nbs, upto, alpha, r);
            &&& next.len() == adj.len()
            &&& forall|x: int|
                0 <= x < adj.len() && !(exists|k: int| 0 <= k < upto && #[trigger] nbs[k] == x) ==> #[trigger] next[x]
                    == adj[x]
            &&& forall|k: int|
                0 <= k < upto ==> next[#[trigger] nbs[k] as int] == linked(
                    scorer,
                    base,
                    occludes,
                    nbs[k],
                    adj[nbs[k] as int],
                    p,
                    alpha,
                    r,
                )
        }),
    decreases upto,
{
    if upto > 0 {
        let u = (upto - 1) as nat;
        let before = woven(scorer, base, occludes, adj, p, nbs, u, alpha, r);
        let next = woven(scorer, base, occludes, adj, p, nbs, upto, alpha, r);
        let nb = nbs[upto - 1];
        lemma_woven_lists(scorer, base, occludes, adj, p, nbs, u, alpha, r);
        assert(nb < adj.len());
        assert(before[nb as int] == adj[nb as int]) by {
            if exists|k: int| 0 <= k < u && #[trigger] nbs[k] == nb as int {
                let k = choose|k: int| 0 <= k < u && #[trigger] nbs[k] == nb as int;
                assert(nbs[k] != nbs[upto - 1]);
            }
        }
        assert forall|x: int|
            0 <= x < adj.len() && !(exists|k: int| 0 <= k < upto && #[trigger] nbs[k] == x) implies #[trigger] next[x]
            == adj[x] by {
            assert(nbs[upto - 1] != x);
            assert(next[x] == before[x]);
        }
        assert forall|k: int| 0 <= k < upto implies next[#[trigger] nbs[k] as int] == linked(
            scorer,
            base,
            occludes,
            nbs[k],
            adj[nbs[k] as int],
            p,
            alpha,
            r,
        ) by {
            assert(nbs[k] < adj.len());
            if k < upto - 1 {
                assert(nbs[k] != nbs[upto - 1]);
                assert(next[nbs[k] as int] == before[nbs[k] as int]);
            }
        }
    }
}

/// Inserting a point gives it the neighbors that pruning keeps of what was
/// expanded and of its old neighbors; each of these links back; and the lists
/// of all other points stay as they were.
pub proof fn law_insertion_links_both_ways<S: RouteScorer, F: Fn(u32, u32, u32) -> bool>(
    scorer: &S,
    base: FloatVectors,
    occludes: &F,
    adj: Seq<Seq<u32>>,
    p: u32,
    expanded: Seq<(u32, u32)>,
    alpha: u32,
    r: nat,
    n: nat,
)
    requires
        graph_sound(adj, n, r),
        p < n,
        pairs_in_range(expanded, n),
    ensures
        ({
            let next = inserted(scorer, base, occludes, adj, p, expanded, alpha, r);
            let old_list = adj[p as int];
            let cand = expanded + Seq::new(
                old_list.len(),
                |k: int| (scorer.distance(base.row(p as int), old_list[k]), old_list[k]),
            );
            &&& next.len() == n
            &&& next[p as int] == pruned(scorer, base, occludes, p, cand, alpha, r)
            &&& forall|x: u32|
                x < n && x != p && !next[p as int].contains(x) ==> #[trigger] next[x as int] == adj[x as int]
            &&& forall|x: u32|
                x < n && next[p as int].contains(x) ==> #[trigger] next[x as int] == linked(
                    scorer,
                    base,
                    occludes,
                    x,
                    adj[x as int],
                    p,
                    alpha,
                    r,
                )
        }),
{
    let next = inserted(scorer, base, occludes, adj, p, expanded, alpha, r);
    let cand = expanded + measured_from(scorer, base, p, adj[p as int]);
    assert(cand =~= expanded + Seq::new(
        adj[p as int].len(),
        |k: int| (scorer.distance(base.row(p as int), adj[p as int][k]), adj[p as int][k]),
    ));
    assert(list_sound(adj[p as int], p as int, n, r));
    assert forall|i: int| 0 <= i < cand.len() implies (#[trigger] cand[i]).1 < n by {
        if i < expanded.len() {
            assert(cand[i] == expanded[i]);
        } else {
            assert(cand[i].1 == adj[p as int][i - expanded.len()]);
        }
    }
    let nbs = pruned(scorer, base, occludes, p, cand, alpha, r);
    let with = adj.update(p as int, nbs);
    lemma_pruned_sound(scorer, base, occludes, p, cand, alpha, r, n);
    lemma_woven_lists(scorer, base, occludes, with, p, nbs, nbs.len(), alpha, r);
    assert(next[p as int] == nbs) by {
        if exists|k: int| 0 <= k < nbs.len() && #[trigger] nbs[k] == p as int {
            let k = choose|k: int| 0 <= k < nbs.len() && #[trigger] nbs[k] == p as int;
            assert(nbs[k] != p as int);
        }
    }
    assert forall|x: u32| x < n && x != p && !nbs.contains(x) implies #[trigger] next[x as int] == adj[x as int] by {
        assert(with[x as int] == adj[x as int]);
        if exists|k: int| 0 <= k < nbs.len() && #[trigger] nbs[k] == x as int {
            let k = choose|k: int| 0 <= k < nbs.len() && #[trigger] nbs[k] == x as int;
            assert(nbs.contains(nbs[k]));
        }
    }
    assert forall|x: u32| x < n && nbs.contains(x) implies #[trigger] next[x as int] == linked(
        scorer,
        base,
        occludes,
        x,
        adj[x as int],
        p,
        alpha,
        r,
    ) by {
        let k = choose|k: int| 0 <= k < nbs.len() && nbs[k] == x;
        assert(nbs[k] != p as int);
        assert(next[nbs[k] as int] == linked(scorer, base, occludes, nbs[k], with[nbs[k] as int], p, alpha, r));
    }
}

/// After an insertion, each neighbor of the new point names the point in
/// turn, unless it has `r` neighbors, or one of its neighbors occludes the
/// point.
pub proof fn law_neighbors_name_the_point<S: RouteScorer, F: Fn(u32, u32, u32) -> bool>(
    scorer: &S,
    base: FloatVectors,
    occludes: &F,
    adj: Seq<Seq<u32>>,
    p: u32,
    expanded: Seq<(u32, u32)>,
    alpha: u32,
    r: nat,
    n: nat,
    x: u32,
)
    requires
        graph_sound(adj, n, r),
        p < n,
        pairs_in_range(expanded, n),
        inserted(scorer, base, occludes, adj, p, expanded, alpha, r)[p as int].contains(x),
    ensures
        ({
            let list = inserted(scorer, base, occludes, adj, p, expanded, alpha, r)[x as int];
            list.contains(p) || list.len() == r || exists|i: int|
                0 <= i < list.len() && call_ensures(
                    *occludes,
                    (
                        alpha,
                        scorer.distance(base.row(#[trigger] list[i] as int), p),
                        scorer.distance(base.row(x as int), p),
                    ),
                    true,
                )
        }),
{
    let next = inserted(scorer, base, occludes, adj, p, expanded, alpha, r);
    law_insertion_links_both_ways(scorer, base, occludes, adj, p, expanded, alpha, r, n);
    law_insert_keeps_graph_sound(scorer, base, occludes, adj, p, expanded, alpha, r, n);
    assert(list_sound(next[p as int], p as int, n, r));
    let k = choose|k: int| 0 <= k < next[p as int].len() && next[p as int][k] == x;
    assert(next[p as int][k] < n && next[p as int][k] != p as int);
    law_linking_back(scorer, base, occludes, x, adj[x as int], p, alpha, r);
    let list = next[x as int];
    if adj[x as int].contains(p) {
    } else if adj[x as int].len() < r {
        assert(list[list.len() - 1] == p);
    } else if !list.contains(p) {
        assert(p == p && p != x);
    }
}

/// Inserting a point searches for it from the entry point along the graph so
/// far, with the pool of the build, one node at a time; and goes by what the
/// search expanded.
pub proof fn law_insertion_searches_for_its_point<S: RouteScorer, F: Fn(u32, u32, u32) -> bool>(
    scorer: &S,
    base: FloatVectors,
    occludes: &F,
    medoid: u32,
    l_build: nat,
    alpha: u32,
    r: nat,
    adj: Seq<Seq<u32>>,
    p: u32,
    next: Seq<Seq<u32>>,
    score: spec_fn(u32) -> u32,
    answer: spec_fn(u32, Seq<u32>) -> bool,
)
    requires
        inserts(scorer, base, occludes, medoid, l_build, alpha, r, adj, p, next),
        forall|id: u32| #[trigger] score(id) == scorer.distance(base.row(p as int), id),
        forall|id: u32, l: Seq<u32>| #[trigger] answer(id, l) <==> l == adj[id as int],
    ensures
        exists|rounds: Seq<Seq<Seq<u32>>>, end: Beam|
            #[trigger] Beam::seeded(medoid, score(medoid)).settles(l_build, 1, score, rounds, answer, end) && next
                == inserted(scorer, base, occludes, adj, p, end.expanded, alpha, r),
{
    assert(score =~= scores(scorer, base.row(p as int)));
    assert(answer =~= listed(adj));
    let (rounds, end) = choose|rounds: Seq<Seq<Seq<u32>>>, end: Beam|
        #[trigger] Beam::seeded(medoid, apart(scorer, base, p, medoid)).settles(
            l_build,
            1,
            scores(scorer, base.row(p as int)),
            rounds,
            listed(adj),
            end,
        ) && next == inserted(scorer, base, occludes, adj, p, end.expanded, alpha, r);
    assert(Beam::seeded(medoid, score(medoid)).settles(l_build, 1, score, rounds, answer, end));
}

/// A build starts without edges and inserts every point twice: once with
/// slack 1.0, and once more, into what that left, with the slack asked for.
/// The graph has the lists that the last insertion left.
pub proof fn law_every_point_is_inserted_twice<S: RouteScorer, F: Fn(u32, u32, u32) -> bool>(
    scorer: &S,
    base: FloatVectors,
    occludes: &F,
    params: BuildParams,
    g: VamanaGraph,
    first: Seq<Seq<Seq<u32>>>,
    second: Seq<Seq<Seq<u32>>>,
    p: u32,
)
    requires
        built(scorer, base, occludes, params, g, first, second),
        base.count <= u32::MAX,
        p < base.count,
    ensures
        first.len() == base.count + 1,
        second.len() == base.count + 1,
        forall|i: int| 0 <= i < base.count ==> first[0].len() == base.count && (#[trigger] first[0][i]).len() == 0,
        second[0] == first[base.count as int],
        forall|i: int|
            0 <= i < base.count ==> inserts(
                scorer,
                base,
                occludes,
                g.medoid,
                params.l_build as nat,
                0x3f80_0000u32,
                params.r as nat,
                #[trigger] first[i],
                pass_order(base.count as nat, 42)[i],
                first[i + 1],
            ),
        forall|i: int|
            0 <= i < base.count ==> inserts(
                scorer,
                base,
                occludes,
                g.medoid,
                params.l_build as nat,
                params.alpha,
                params.r as nat,
                #[trigger] second[i],
                pass_order(base.count as nat, 43)[i],
                second[i + 1],
            ),
        exists|i: int|
            0 <= i < base.count && inserts(
                scorer,
                base,
                occludes,
                g.medoid,
                params.l_build as nat,
                0x3f80_0000u32,
                params.r as nat,
                #[trigger] first[i],
                p,
                first[i + 1],
            ),
        exists|i: int|
            0 <= i < base.count && inserts(
                scorer,
                base,
                occludes,
                g.medoid,
                params.l_build as nat,
                params.alpha,
                params.r as nat,
                #[trigger] second[i],
                p,
                second[i + 1],
            ),
        forall|i: int| 0 <= i < base.count ==> #[trigger] g.list(i) == second[base.count as int][i],
{
    let n = base.count as nat;
    law_pass_visits_every_point_once(n, 42, p);
    law_pass_visits_every_point_once(n, 43, p);
    let i = choose|i: int| 0 <= i < pass_order(n, 42).len() && pass_order(n, 42)[i] == p;
    let j = choose|j: int| 0 <= j < pass_order(n, 43).len() && pass_order(n, 43)[j] == p;
    assert forall|k: int| 0 <= k < n implies inserts(
        scorer,
        base,
        occludes,
        g.medoid,
        params.l_build as nat,
        0x3f80_0000u32,
        params.r as nat,
        #[trigger] first[k],
        pass_order(n, 42)[k],
        first[k + 1],
    ) by {
        assert(pass_order(n, 42)[k] == pass_order(n, 42)[k]);
    }
    assert forall|k: int| 0 <= k < n implies inserts(
        scorer,
        base,
        occludes,
        g.medoid,
        params.l_build as nat,
        params.alpha,
        params.r as nat,
        #[trigger] second[k],
        pass_order(n, 43)[k],
        second[k + 1],
    ) by {
        assert(pass_order(n, 43)[k] == pass_order(n, 43)[k]);
    }
    assert(first[i] == first[i] && second[j] == second[j]);
}

/// The shuffle exchanges the last place of what is left with a place that the
/// generator picks, and goes on with the places before it: the last place is
/// settled, and those behind it stay as they were.
pub proof fn law_shuffle_settles_the_last_place(v: Seq<u32>, state: u64, i: int)
    requires
        1 <= i < v.len(),
    ensures
        ({
            let next = state.wrapping_add(0x9E37_79B9_7F4A_7C15);
            let j = splitmix_mix(next) as int % (i + 1);
            let out = shuffled(v, state, i);
            &&& out.len() == v.len()
            &&& out[i] == v[j]
            &&& forall|k: int| i < k < v.len() ==> #[trigger] out[k] == v[k]
            &&& out == shuffled(v.update(i, v[j]).update(j, v[i]), next, i - 1)
        }),
{
    let next = splitmix_step(state);
    let j = splitmix_mix(next) as int % (i + 1);
    lemma_shuffle_leaves(swapped(v, i, j), next, i - 1);
}

proof fn lemma_shuffle_leaves(v: Seq<u32>, state: u64, i: int)
    requires
        i < v.len(),
    ensures
        shuffled(v, state, i).len() == v.len(),
        forall|k: int| i < k < v.len() ==> #[trigger] shuffled(v, state, i)[k] == v[k],
    decreases i,
{
    if i >= 1 {
        let next = splitmix_step(state);
        let j = splitmix_mix(next) as int % (i + 1);
        lemma_shuffle_leaves(swapped(v, i, j), next, i - 1);
    }
}

/// The generator counts up by an odd constant and mixes what it counts, by
/// two rounds of shifting and multiplying, and a last shift.
pub proof fn law_generator_counts_and_mixes(state: u64)
    ensures
        splitmix_step(state) == (state + 0x9E37_79B9_7F4A_7C15) % 0x1_0000_0000_0000_0000,
        ({
            let a = ((state ^ (state >> 30u64)) * 0xBF58_476D_1CE4_E5B9) % 0x1_0000_0000_0000_0000;
            let b = (((a as u64) ^ ((a as u64) >> 27u64)) * 0x94D0_49BB_1331_11EB) % 0x1_0000_0000_0000_0000;
            splitmix_mix(state) == (b as u64) ^ ((b as u64) >> 31u64)
        }),
{
}

/// The order of a pass is the shuffle of all points, from the last place down
/// to the first; the shuffle of a single place is that place.
pub proof fn law_passes_go_in_shuffled_order(n: nat, seed: u64, points: Seq<u32>)
    requires
        points.len() == n,
        forall|i: int| 0 <= i < n ==> #[trigger] points[i] == i as u32,
    ensures
        pass_order(n, seed) == shuffled(points, seed, n - 1),
        shuffled(points, seed, 0) == points,
{
    assert(points =~= Seq::new(n, |i: int| i as u32));
}

/// Of what RobustPrune returns, no neighbor is occluded by one that stands
/// before it, neighbors stand in the order of their distances from `p`, and
/// none is `p` itself.
pub proof fn law_returned_neighbors_are_not_occluded<S: RouteScorer, F: Fn(u32, u32, u32) -> bool>(
    scorer: &S,
    base: &FloatVectors,
    occludes: &F,
    p: u32,
    cand: &Vec<(u32, u32)>,
    alpha: u32,
    r: usize,
    out: Vec<u32>,
    m: int,
    l: int,
    i: int,
    j: int,
)
    requires
        call_ensures(robust_prune::<S, F>, (scorer, base, occludes, p, cand, alpha, r), out),
        0 <= i < j < out@.len(),
        first_of_its_id(cand@, m),
        first_of_its_id(cand@, l),
        cand@[m].1 == out@[i],
        cand@[l].1 == out@[j],
    ensures
        !call_ensures(*occludes, (alpha, scorer.distance(base.row(out@[i] as int), out@[j]), cand@[l].0), true),
        comes_before(cand@[m], cand@[l]),
        out@[i] != p && out@[j] != p,
        out@.len() <= r,
{
    law_pruning_keeps_none_occluded(scorer, *base, occludes, p, cand@, alpha, r as nat, i, j, m, l);
    law_pruning_respects_r_and_dedups(scorer, *base, occludes, p, cand@, alpha, r as nat);
}

} // verus!
