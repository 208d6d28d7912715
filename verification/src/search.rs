//! Best-first beam search with a bounded candidate pool.
//!
//! The adjacency is supplied as a function so the same routine serves the
//! graph under construction and the frozen graph; the search over disk
//! blocks drives the same state from what it reads.

use vstd::prelude::*;

use crate::beam::{
    answered_by, bisect, in_range, lemma_expand, lemma_expanded_bound, lemma_picks, lemma_round, lemma_seeded,
    lemma_squeezed, marked, offered, pairs_at, pairs_of, picks, slot, squeezed, Beam, Candidate,
};
use crate::bits::{less, less_eq};
use crate::scorer::{covers_each, covers_set, scores, RouteScorer};

verus! {

/// Where a candidate at distance `d` belongs.
fn insertion_point(pool: &Vec<Candidate>, d: u32) -> (at: usize)
    ensures
        at == slot(pool@, d),
        at <= pool@.len(),
{
    let mut lo: usize = 0;
    let mut hi: usize = pool.len();
    while lo < hi
        invariant
            lo <= hi <= pool@.len(),
            bisect(pool@, d, lo as int, hi as int) == slot(pool@, d),
        decreases hi - lo,
    {
        let mid: usize = lo + (hi - lo) / 2;
        if less_eq(pool[mid].dist, d) {
            lo = mid + 1;
        } else {
            hi = mid;
        }
    }
    lo
}

/// Puts a fresh candidate in its place, and lets the last one go if there
/// are too many.
pub(crate) fn squeeze_in(pool: &mut Vec<Candidate>, ef: usize, d: u32, id: u32)
    requires
        old(pool)@.len() <= ef,
    ensures
        final(pool)@ == squeezed(old(pool)@, ef as nat, d, id),
{
    let at: usize = insertion_point(pool, d);
    pool.insert(at, Candidate { dist: d, id, expanded: false });
    if pool.len() > ef {
        pool.pop();
    }
}

/// Offers a node to the pool.
fn offer(pool: &mut Vec<Candidate>, ef: usize, d: u32, id: u32)
    requires
        old(pool)@.len() <= ef,
        ef > 0,
    ensures
        final(pool)@ == offered(old(pool)@, ef as nat, d, id),
{
    if pool.len() < ef || less(d, pool[pool.len() - 1].dist) {
        squeeze_in(pool, ef, d, id);
    }
}

/// Expands the closest unexpanded candidates, `w` at most, and returns them
/// in order.
pub(crate) fn take_frontier(pool: &mut Vec<Candidate>, w: usize) -> (frontier: Vec<(u32, u32)>)
    ensures
        final(pool)@ == marked(old(pool)@, picks(old(pool)@, old(pool)@.len(), w as nat)),
        frontier@ == pairs_at(old(pool)@, picks(old(pool)@, old(pool)@.len(), w as nat)),
        frontier@.len() <= w,
{
    let ghost before = pool@;
    let mut frontier: Vec<(u32, u32)> = Vec::new();
    let mut i: usize = 0;
    assert(pool@ =~= marked(before, picks(before, 0, w as nat)));
    assert(frontier@ =~= pairs_at(before, picks(before, 0, w as nat)));
    while i < pool.len() && frontier.len() < w
        invariant
            i <= pool@.len(),
            pool@.len() == before.len(),
            pool@ == marked(before, picks(before, i as nat, w as nat)),
            frontier@ == pairs_at(before, picks(before, i as nat, w as nat)),
        decreases pool@.len() - i,
    {
        let ghost at = picks(before, i as nat, w as nat);
        proof {
            lemma_picks(before, i as nat, w as nat);
            assert(!at.contains(i as int));
            assert(pool@[i as int] == before[i as int]);
        }
        let c: Candidate = pool[i];
        if !c.expanded {
            frontier.push((c.dist, c.id));
            pool.set(i, Candidate { dist: c.dist, id: c.id, expanded: true });
            proof {
                let next = at.push(i as int);
                assert(picks(before, (i + 1) as nat, w as nat) == next);
                assert forall|j: int| 0 <= j < before.len() implies pool@[j] == marked(before, next)[j] by {
                    if j == i {
                        assert(next[at.len() as int] == j);
                    } else if at.contains(j) {
                        let k = choose|k: int| 0 <= k < at.len() && at[k] == j;
                        assert(next[k] == j);
                    } else if next.contains(j) {
                        let k = choose|k: int| 0 <= k < next.len() && next[k] == j;
                        assert(at[k] == j);
                    }
                }
                assert(pool@ =~= marked(before, next));
                assert(frontier@ =~= pairs_at(before, next));
            }
        }
        i += 1;
    }
    proof {
        lemma_picks_rest(before, i as nat, before.len(), w as nat);
        lemma_picks(before, before.len(), w as nat);
    }
    frontier
}

/// Once `w` candidates are picked, no more are.
proof fn lemma_picks_rest(pool: Seq<Candidate>, i: nat, n: nat, w: nat)
    requires
        i <= n <= pool.len(),
        i == n || picks(pool, i, w).len() >= w,
    ensures
        picks(pool, n, w) == picks(pool, i, w),
    decreases n - i,
{
    if i < n {
        lemma_picks_rest(pool, i, (n - 1) as nat, w);
    }
}

/// Reusable per-thread search state. Allocating the visited-marker array is
/// O(n), so create one scratch per thread and reuse it across queries.
pub struct SearchScratch {
    visit_epoch: Vec<u32>,
    epoch: u32,
    pool: Vec<Candidate>,
    /// Nodes expanded by the last search, with their distances. The build
    /// uses these as pruning candidates; queries can ignore them.
    pub expanded: Vec<(u32, u32)>,
}

impl View for SearchScratch {
    type V = Beam;

    closed spec fn view(&self) -> Beam {
        Beam {
            pool: self.pool@,
            visited: Set::new(
                |id: u32| id < self.visit_epoch@.len() && self.epoch > 0 && self.visit_epoch@[id as int] == self.epoch,
            ),
            expanded: self.expanded@,
        }
    }
}

impl SearchScratch {
    /// How many nodes the visited markers cover.
    pub closed spec fn nodes(&self) -> nat {
        self.visit_epoch@.len()
    }

    /// No marker is ahead of the current search.
    pub closed spec fn wf(&self) -> bool {
        forall|i: int| 0 <= i < self.visit_epoch@.len() ==> #[trigger] self.visit_epoch@[i] <= self.epoch
    }

    /// Only nodes that exist are visited, and there are no more than can be
    /// counted.
    pub proof fn lemma_below(&self)
        ensures
            self@.below(self.nodes()),
            self.nodes() <= usize::MAX,
    {
        assert(self.visit_epoch.len() == self.visit_epoch@.len());
    }

    /// A scratch for graphs of `num_nodes` nodes, with nothing visited.
    pub fn new(num_nodes: usize) -> (s: Self)
        ensures
            s.wf(),
            s.nodes() == num_nodes,
            s@ == (Beam { pool: Seq::empty(), visited: Set::empty(), expanded: Seq::empty() }),
    {
        let mut visit_epoch: Vec<u32> = Vec::new();
        visit_epoch.resize(num_nodes, 0);
        let s = SearchScratch { visit_epoch, epoch: 0, pool: Vec::new(), expanded: Vec::new() };
        assert(s@.visited =~= Set::empty());
        s
    }

    /// How many nodes the visited markers cover.
    pub fn num_nodes(&self) -> (n: usize)
        ensures
            n == self.nodes(),
    {
        self.visit_epoch.len()
    }

    /// Forgets the last search.
    fn begin(&mut self)
        requires
            old(self).wf(),
        ensures
            final(self).wf(),
            final(self).started(),
            final(self).nodes() == old(self).nodes(),
            final(self)@ == (Beam { pool: Seq::empty(), visited: Set::empty(), expanded: Seq::empty() }),
    {
        if self.epoch == u32::MAX {
            let n: usize = self.visit_epoch.len();
            self.visit_epoch.clear();
            self.visit_epoch.resize(n, 0);
            self.epoch = 0;
        }
        self.epoch += 1;
        self.pool.clear();
        self.expanded.clear();
        assert(self@.visited =~= Set::empty());
    }

    /// True the first time `id` is seen in the current search.
    fn first_visit(&mut self, id: u32) -> (first: bool)
        requires
            old(self).wf(),
            old(self).epoch > 0,
            id < old(self).nodes(),
        ensures
            final(self).wf(),
            final(self).epoch == old(self).epoch,
            final(self).nodes() == old(self).nodes(),
            first == old(self)@.is_new(id),
            final(self)@ == old(self)@.mark(id),
    {
        let first: bool = self.visit_epoch[id as usize] != self.epoch;
        if first {
            self.visit_epoch.set(id as usize, self.epoch);
        }
        assert(self@.visited =~= old(self)@.visited.insert(id));
        first
    }

    /// A search is under way.
    pub closed spec fn started(&self) -> bool {
        self.epoch > 0
    }

    /// Starts a search at `entry`.
    pub fn seed(&mut self, entry: u32, dist: u32)
        requires
            old(self).wf(),
            entry < old(self).nodes(),
        ensures
            final(self).wf(),
            final(self).started(),
            final(self).nodes() == old(self).nodes(),
            final(self)@ == Beam::seeded(entry, dist),
    {
        self.begin();
        self.first_visit(entry);
        self.pool.push(Candidate { dist, id: entry, expanded: false });
        assert(self@ =~= Beam::seeded(entry, dist));
    }

    /// Expands the `w` closest unexpanded candidates, or as many as there
    /// are, and returns them in order.
    pub fn expand(&mut self, w: usize) -> (frontier: Vec<u32>)
        requires
            old(self).wf(),
            old(self).started(),
        ensures
            final(self).wf(),
            final(self).started(),
            final(self).nodes() == old(self).nodes(),
            final(self)@ == old(self)@.expand(w as nat),
            frontier@ == old(self)@.frontier(w as nat),
            frontier@.len() <= w,
    {
        let picked = take_frontier(&mut self.pool, w);
        let mut frontier: Vec<u32> = Vec::new();
        let ghost before = self.expanded@;
        let mut i: usize = 0;
        while i < picked.len()
            invariant
                i <= picked@.len(),
                self.wf(),
                self.epoch == old(self).epoch,
                self.visit_epoch == old(self).visit_epoch,
                self.pool@ == old(self)@.expand(w as nat).pool,
                before == old(self)@.expanded,
                self.expanded@ == before + picked@.take(i as int),
                frontier@ == Seq::new(i as nat, |j: int| picked@[j].1),
            decreases picked@.len() - i,
        {
            frontier.push(picked[i].1);
            self.expanded.push(picked[i]);
            i += 1;
            assert(frontier@ =~= Seq::new(i as nat, |j: int| picked@[j].1));
            assert(self.expanded@ =~= before + picked@.take(i as int));
        }
        assert(self.expanded@ =~= before + picked@);
        assert(frontier@ =~= old(self)@.frontier(w as nat));
        assert(self@.visited =~= old(self)@.visited);
        assert(self@ =~= old(self)@.expand(w as nat));
        frontier
    }

    /// Takes in a list of neighbors.
    pub fn absorb<S: RouteScorer>(&mut self, scorer: &S, query: &[u32], ef: usize, nbs: &[u32])
        requires
            old(self).wf(),
            old(self).started(),
            old(self)@.pool.len() <= ef,
            ef > 0,
            in_range(nbs@, old(self).nodes()),
            covers_each(scorer, query@, nbs@),
        ensures
            final(self).wf(),
            final(self).started(),
            final(self).nodes() == old(self).nodes(),
            final(self)@ == old(self)@.absorb_all(ef as nat, scores(scorer, query@), nbs@),
            final(self)@.pool.len() <= ef,
    {
        let ghost score = scores(scorer, query@);
        let ghost start = self@;
        let mut i: usize = 0;
        assert(nbs@.take(0) =~= Seq::empty());
        while i < nbs.len()
            invariant
                i <= nbs@.len(),
                self.wf(),
                self.epoch > 0,
                self.nodes() == old(self).nodes(),
                self.pool@.len() <= ef,
                ef > 0,
                in_range(nbs@, self.nodes()),
                covers_each(scorer, query@, nbs@),
                score == scores(scorer, query@),
                self@ == start.absorb_all(ef as nat, score, nbs@.take(i as int)),
            decreases nbs@.len() - i,
        {
            let ghost b = self@;
            let nb: u32 = nbs[i];
            proof {
                assert(nbs@[i as int] < self.nodes());
                let next = nbs@.take(i + 1);
                assert(next.drop_last() =~= nbs@.take(i as int));
                assert(next.last() == nb);
                lemma_squeezed(b.pool, ef as nat, score(nb), nb);
            }
            if self.first_visit(nb) {
                assert(scorer.covers(query@, nbs@[i as int]));
                let d: u32 = scorer.score(query, nb);
                offer(&mut self.pool, ef, d, nb);
            } else {
                assert(b.visited.insert(nb) =~= b.visited);
            }
            assert(self@ =~= b.absorb(ef as nat, score, nb));
            i += 1;
        }
        assert(nbs@.take(i as int) =~= nbs@);
    }

    /// The nodes that the last search expanded, with their distances.
    pub fn expanded_pairs(&self) -> (v: Vec<(u32, u32)>)
        ensures
            v@ == self@.expanded,
    {
        vstd::slice::slice_to_vec(self.expanded.as_slice())
    }

    /// How many nodes the last search expanded.
    pub fn expanded_len(&self) -> (hops: usize)
        ensures
            hops == self@.expanded.len(),
    {
        self.expanded.len()
    }

    /// Top-k (dist, id) of the last search, ascending by distance.
    pub fn top_k(&self, k: usize) -> (v: Vec<(u32, u32)>)
        ensures
            v@ == pairs_of(self@.pool).take(if k < self@.pool.len() { k as int } else { self@.pool.len() as int }),
    {
        let mut v: Vec<(u32, u32)> = Vec::new();
        let mut i: usize = 0;
        while i < k && i < self.pool.len()
            invariant
                i <= k,
                i <= self.pool@.len(),
                v@ == pairs_of(self.pool@).take(i as int),
            decreases self.pool@.len() - i,
        {
            v.push((self.pool[i].dist, self.pool[i].id));
            i += 1;
            assert(v@ =~= pairs_of(self.pool@).take(i as int));
        }
        v
    }
}

/// Since a search began, each node is new exactly once: of the nodes that are
/// met in this order, the one at place `i` is new if and only if it was not
/// met before.
pub proof fn law_each_node_is_new_once(begun: Beam, ids: Seq<u32>, i: int)
    requires
        begun.visited == Set::<u32>::empty(),
        0 <= i < ids.len(),
    ensures
        begun.mark_all(ids.take(i)).is_new(ids[i]) <==> forall|j: int| 0 <= j < i ==> #[trigger] ids[j] != ids[i],
{
    let head = ids.take(i);
    lemma_mark_all(begun, head, ids[i]);
    if head.contains(ids[i]) {
        let j = choose|j: int| 0 <= j < head.len() && head[j] == ids[i];
        assert(ids[j] == ids[i]);
    } else {
        assert forall|j: int| 0 <= j < i implies #[trigger] ids[j] != ids[i] by {
            assert(head[j] == ids[j]);
        }
    }
}

/// What was marked is what was marked before and what was met since.
proof fn lemma_mark_all(b: Beam, ids: Seq<u32>, id: u32)
    ensures
        b.mark_all(ids).is_new(id) <==> b.is_new(id) && !ids.contains(id),
    decreases ids.len(),
{
    if ids.len() > 0 {
        let init = ids.drop_last();
        lemma_mark_all(b, init, id);
        if init.contains(id) {
            let j = choose|j: int| 0 <= j < init.len() && init[j] == id;
            assert(ids[j] == id);
        } else if ids.contains(id) {
            let j = choose|j: int| 0 <= j < ids.len() && ids[j] == id;
            if j < init.len() {
                assert(init[j] == id);
            }
        }
        assert(ids[ids.len() - 1] == ids.last());
    }
}

/// Greedy best-first search keeping the `ef` closest candidates seen.
/// `neighbors` gives the adjacency of a node. Results are left in the scratch
/// (see [`SearchScratch::top_k`]); returns the number of expanded nodes.
pub fn beam_search<S: RouteScorer, N: Fn(u32) -> Vec<u32>>(
    base: &S,
    query: &[u32],
    entry: u32,
    ef: usize,
    neighbors: &N,
    scratch: &mut SearchScratch,
) -> (hops: usize)
    requires
        ef > 0,
        old(scratch).wf(),
        entry < old(scratch).nodes(),
        base.covers(query@, entry),
        forall|id: u32|
            id < old(scratch).nodes() && base.covers(query@, id) ==> #[trigger] call_requires(*neighbors, (id,)),
        forall|id: u32, v: Vec<u32>|
            id < old(scratch).nodes() && base.covers(query@, id) && #[trigger] call_ensures(*neighbors, (id,), v)
                ==> in_range(v@, old(scratch).nodes()) && covers_each(base, query@, v@),
    ensures
        final(scratch).wf(),
        final(scratch).nodes() == old(scratch).nodes(),
        hops == final(scratch)@.expanded.len(),
        exists|rounds: Seq<Seq<Seq<u32>>>|
            #[trigger] Beam::seeded(entry, base.distance(query@, entry)).settles(
                ef as nat,
                1,
                scores(base, query@),
                rounds,
                answered_by(*neighbors),
                final(scratch)@,
            ),
{
    beam_search_batched(base, query, entry, ef, 1, neighbors, scratch)
}

/// As [`beam_search`], expanding the `w` closest unexpanded candidates per
/// round before their neighbors are taken in.
pub fn beam_search_batched<S: RouteScorer, N: Fn(u32) -> Vec<u32>>(
    base: &S,
    query: &[u32],
    entry: u32,
    ef: usize,
    w: usize,
    neighbors: &N,
    scratch: &mut SearchScratch,
) -> (reads: usize)
    requires
        ef > 0,
        w > 0,
        old(scratch).wf(),
        entry < old(scratch).nodes(),
        base.covers(query@, entry),
        forall|id: u32|
            id < old(scratch).nodes() && base.covers(query@, id) ==> #[trigger] call_requires(*neighbors, (id,)),
        forall|id: u32, v: Vec<u32>|
            id < old(scratch).nodes() && base.covers(query@, id) && #[trigger] call_ensures(*neighbors, (id,), v)
                ==> in_range(v@, old(scratch).nodes()) && covers_each(base, query@, v@),
    ensures
        final(scratch).wf(),
        final(scratch).nodes() == old(scratch).nodes(),
        reads == final(scratch)@.expanded.len(),
        exists|rounds: Seq<Seq<Seq<u32>>>|
            #[trigger] Beam::seeded(entry, base.distance(query@, entry)).settles(
                ef as nat,
                w as nat,
                scores(base, query@),
                rounds,
                answered_by(*neighbors),
                final(scratch)@,
            ),
{
    let ghost n = scratch.nodes();
    let ghost score = scores(base, query@);
    let ghost answer = answered_by(*neighbors);
    let d0: u32 = base.score(query, entry);
    scratch.seed(entry, d0);
    let ghost start = scratch@;
    let ghost mut rounds: Seq<Seq<Seq<u32>>> = Seq::empty();
    proof {
        lemma_seeded(entry, d0, score);
        scratch.lemma_below();
        lemma_expanded_bound(scratch@, n);
    }
    loop
        invariant
            ef > 0,
            w > 0,
            scratch.wf(),
            scratch.started(),
            scratch.nodes() == n,
            covers_set(base, query@, scratch@.visited),
            forall|id: u32| id < n && base.covers(query@, id) ==> #[trigger] call_requires(*neighbors, (id,)),
            forall|id: u32, v: Vec<u32>|
                id < n && base.covers(query@, id) && #[trigger] call_ensures(*neighbors, (id,), v) ==> in_range(v@, n)
                    && covers_each(base, query@, v@),
            score == scores(base, query@),
            answer == answered_by(*neighbors),
            start == Beam::seeded(entry, base.distance(query@, entry)),
            scratch@.wf(),
            scratch@.scored(score),
            scratch@.pool.len() <= ef,
            scratch@.expanded.len() <= n,
            start.trace(ef as nat, w as nat, score, rounds, answer),
            start.run(ef as nat, w as nat, score, rounds) == scratch@,
        ensures
            scratch.wf(),
            scratch.nodes() == n,
            scratch@.expanded.len() <= n,
            start.settles(ef as nat, w as nat, score, rounds, answer, scratch@),
        decreases n - scratch@.expanded.len(),
    {
        let ghost b = scratch@;
        proof {
            scratch.lemma_below();
        }
        let frontier = scratch.expand(w);
        proof {
            lemma_picks(b.pool, b.pool.len(), w as nat);
            assert forall|j: int| 0 <= j < frontier@.len() implies #[trigger] frontier@[j] < n && base.covers(
                query@,
                frontier@[j],
            ) by {
                assert(b.visited.contains(b.pool[b.chosen(w as nat)[j]].id));
            }
            lemma_expand(b, w as nat);
            scratch.lemma_below();
            lemma_expanded_bound(scratch@, n);
        }
        if frontier.len() == 0 {
            proof {
                lemma_expand_nothing(b, w as nat);
            }
            break;
        }
        let ghost mut lists: Seq<Seq<u32>> = Seq::empty();
        let mut i: usize = 0;
        while i < frontier.len()
            invariant
                i <= frontier@.len(),
                ef > 0,
                w > 0,
                scratch.wf(),
                scratch.started(),
                scratch.nodes() == n,
                forall|id: u32| id < n && base.covers(query@, id) ==> #[trigger] call_requires(*neighbors, (id,)),
                forall|id: u32, v: Vec<u32>|
                    id < n && base.covers(query@, id) && #[trigger] call_ensures(*neighbors, (id,), v) ==> in_range(
                        v@,
                        n,
                    ) && covers_each(base, query@, v@),
                score == scores(base, query@),
                answer == answered_by(*neighbors),
                frontier@ == b.frontier(w as nat),
                forall|j: int|
                    0 <= j < frontier@.len() ==> #[trigger] frontier@[j] < n && base.covers(query@, frontier@[j]),
                b.expand(w as nat).wf(),
                b.expand(w as nat).scored(score),
                b.expand(w as nat).pool.len() <= ef,
                lists.len() == i,
                forall|j: int|
                    0 <= j < i ==> answer(frontier@[j], #[trigger] lists[j]) && covers_each(base, query@, lists[j]),
                scratch@.pool.len() <= ef,
                scratch@ == b.expand(w as nat).absorb_lists(ef as nat, score, lists),
            decreases frontier@.len() - i,
        {
            assert(frontier@[i as int] < n);
            let v = neighbors(frontier[i]);
            scratch.absorb(base, query, ef, v.as_slice());
            proof {
                let next = lists.push(v@);
                assert(next.drop_last() =~= lists);
                assert(answer(frontier@[i as int], v@));
                lists = next;
            }
            i += 1;
        }
        proof {
            let next = rounds.push(lists);
            assert(next.drop_last() =~= rounds);
            lemma_round(b, ef as nat, w as nat, score, lists);
            assert forall|id: u32| #[trigger] scratch@.visited.contains(id) implies base.covers(query@, id) by {
                if !b.visited.contains(id) {
                    let j = choose|j: int| 0 <= j < lists.len() && (#[trigger] lists[j]).contains(id);
                    let k = choose|k: int| 0 <= k < lists[j].len() && lists[j][k] == id;
                    assert(base.covers(query@, lists[j][k]));
                }
            }
            rounds = next;
        }
    }
    scratch.expanded.len()
}

/// Where nothing is left to expand, expanding changes nothing.
pub proof fn lemma_expand_nothing(b: Beam, w: nat)
    requires
        b.frontier(w).len() == 0,
    ensures
        b.expand(w) == b,
{
    assert(b.expand(w).pool =~= b.pool);
    assert(b.expand(w) =~= b);
}

} // verus!
