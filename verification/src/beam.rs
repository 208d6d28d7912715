//! The state of a best-first search, and how it moves.
//!
//! A search keeps a bounded pool of candidates in order of distance. In each
//! round it expands the closest candidates that are not expanded yet, asks
//! for their neighbors, and offers every neighbor that it has not seen to the
//! pool. It ends when the whole pool is expanded. This module holds the model
//! of that state, shared by the in-memory search, the search over disk blocks
//! and the pipelined search.

use vstd::prelude::*;

use crate::bits::{at_most, is_nan, position, precedes};
use crate::select::{
    ascending, lemma_selects_ignore, lemma_selects_insert, lemma_selects_unique, lemma_subset_len, selects, tie_free,
};
use crate::topk::{kept, lemma_kept_as_close, lemma_kept_selects, pair_set};

verus! {

/// A node in the pool.
#[derive(Clone, Copy)]
pub struct Candidate {
    pub dist: u32,
    pub id: u32,
    pub expanded: bool,
}

/// Where halving `lo..hi` ends up, going right past every candidate whose
/// distance is at most `d`.
pub open spec fn bisect(pool: Seq<Candidate>, d: u32, lo: int, hi: int) -> int
    decreases hi - lo,
{
    if lo >= hi {
        lo
    } else {
        let mid = lo + (hi - lo) / 2;
        if at_most(pool[mid].dist, d) {
            bisect(pool, d, mid + 1, hi)
        } else {
            bisect(pool, d, lo, mid)
        }
    }
}

/// Where a candidate at distance `d` belongs.
pub open spec fn slot(pool: Seq<Candidate>, d: u32) -> int {
    bisect(pool, d, 0, pool.len() as int)
}

/// The pool with a fresh candidate in its place, and with the last one gone
/// if there were too many.
pub open spec fn squeezed(pool: Seq<Candidate>, ef: nat, d: u32, id: u32) -> Seq<Candidate> {
    let grown = pool.insert(slot(pool, d), Candidate { dist: d, id, expanded: false });
    if grown.len() > ef {
        grown.drop_last()
    } else {
        grown
    }
}

/// The pool after a node at distance `d` was offered: it comes in while
/// there is room, or if it is closer than the last candidate.
pub open spec fn offered(pool: Seq<Candidate>, ef: nat, d: u32, id: u32) -> Seq<Candidate> {
    if pool.len() < ef || precedes(d, pool.last().dist) {
        squeezed(pool, ef, d, id)
    } else {
        pool
    }
}

/// The pool after a node at distance `d` was welcomed: it is turned away only
/// if the pool is full and its last candidate is at most `d` away.
///
/// Among numbers this is what [`offered`] does; the two differ where a NaN
/// takes part.
pub open spec fn welcomed(pool: Seq<Candidate>, ef: nat, d: u32, id: u32) -> Seq<Candidate> {
    if pool.len() >= ef && at_most(pool.last().dist, d) {
        pool
    } else {
        squeezed(pool, ef, d, id)
    }
}

/// The positions of the first `w` unexpanded candidates among the first `n`.
pub open spec fn picks(pool: Seq<Candidate>, n: nat, w: nat) -> Seq<int>
    decreases n,
{
    if n == 0 {
        Seq::empty()
    } else {
        let before = picks(pool, (n - 1) as nat, w);
        if before.len() < w && !pool[n - 1].expanded {
            before.push(n - 1)
        } else {
            before
        }
    }
}

/// The pool with the candidates at the given positions expanded.
pub open spec fn marked(pool: Seq<Candidate>, at: Seq<int>) -> Seq<Candidate> {
    Seq::new(
        pool.len(),
        |i: int|
            if at.contains(i) {
                Candidate { expanded: true, ..pool[i] }
            } else {
                pool[i]
            },
    )
}

/// The ids of the candidates at the given positions.
pub open spec fn ids_at(pool: Seq<Candidate>, at: Seq<int>) -> Seq<u32> {
    Seq::new(at.len(), |i: int| pool[at[i]].id)
}

/// The distances and ids of the candidates at the given positions.
pub open spec fn pairs_at(pool: Seq<Candidate>, at: Seq<int>) -> Seq<(u32, u32)> {
    Seq::new(at.len(), |i: int| (pool[at[i]].dist, pool[at[i]].id))
}

/// The distances and ids of the whole pool.
pub open spec fn pairs_of(pool: Seq<Candidate>) -> Seq<(u32, u32)> {
    Seq::new(pool.len(), |i: int| (pool[i].dist, pool[i].id))
}

/// `id` is the id of one of the pairs.
pub open spec fn names(pairs: Seq<(u32, u32)>, id: u32) -> bool {
    exists|j: int| 0 <= j < pairs.len() && (#[trigger] pairs[j]).1 == id
}

/// The answers that a function from nodes to neighbor lists gives.
pub open spec fn answered_by<N: Fn(u32) -> Vec<u32>>(neighbors: N) -> spec_fn(u32, Seq<u32>) -> bool {
    |id: u32, list: Seq<u32>| exists|v: Vec<u32>| v@ == list && #[trigger] call_ensures(neighbors, (id,), v)
}

/// All ids of a list are below `n`.
pub open spec fn in_range(ids: Seq<u32>, n: nat) -> bool {
    forall|i: int| 0 <= i < ids.len() ==> #[trigger] ids[i] < n
}

/// The state of one search.
#[verifier::ext_equal]
pub struct Beam {
    /// The candidates, closest first.
    pub pool: Seq<Candidate>,
    /// Every node that was ever offered.
    pub visited: Set<u32>,
    /// The expanded nodes with their distances, in the order of expansion.
    pub expanded: Seq<(u32, u32)>,
}

impl Beam {
    /// A search that has seen nothing but its entry point.
    pub open spec fn seeded(entry: u32, d: u32) -> Beam {
        Beam {
            pool: seq![Candidate { dist: d, id: entry, expanded: false }],
            visited: Set::empty().insert(entry),
            expanded: Seq::empty(),
        }
    }

    /// The node was not met yet.
    pub open spec fn is_new(self, id: u32) -> bool {
        !self.visited.contains(id)
    }

    /// The state once a node is met.
    pub open spec fn mark(self, id: u32) -> Beam {
        Beam { visited: self.visited.insert(id), ..self }
    }

    /// The state once these nodes are met, one after the other.
    pub open spec fn mark_all(self, ids: Seq<u32>) -> Beam
        decreases ids.len(),
    {
        if ids.len() == 0 {
            self
        } else {
            self.mark_all(ids.drop_last()).mark(ids.last())
        }
    }

    /// The positions of the candidates that the next round expands.
    pub open spec fn chosen(self, w: nat) -> Seq<int> {
        picks(self.pool, self.pool.len(), w)
    }

    /// The nodes that the next round expands: the `w` closest unexpanded
    /// candidates, or as many as there are.
    pub open spec fn frontier(self, w: nat) -> Seq<u32> {
        ids_at(self.pool, self.chosen(w))
    }

    /// The state once these are expanded.
    pub open spec fn expand(self, w: nat) -> Beam {
        Beam {
            pool: marked(self.pool, self.chosen(w)),
            visited: self.visited,
            expanded: self.expanded + pairs_at(self.pool, self.chosen(w)),
        }
    }

    /// The state after a neighbor came in: a node seen before changes
    /// nothing, a fresh one is offered to the pool.
    pub open spec fn absorb(self, ef: nat, score: spec_fn(u32) -> u32, nb: u32) -> Beam {
        if self.visited.contains(nb) {
            self
        } else {
            Beam {
                pool: offered(self.pool, ef, score(nb), nb),
                visited: self.visited.insert(nb),
                expanded: self.expanded,
            }
        }
    }

    /// The state after a list of neighbors came in.
    pub open spec fn absorb_all(self, ef: nat, score: spec_fn(u32) -> u32, nbs: Seq<u32>) -> Beam
        decreases nbs.len(),
    {
        if nbs.len() == 0 {
            self
        } else {
            self.absorb_all(ef, score, nbs.drop_last()).absorb(ef, score, nbs.last())
        }
    }

    /// The state after a neighbor came in: a node seen before changes
    /// nothing, a fresh one is welcomed to the pool.
    pub open spec fn welcome(self, ef: nat, score: spec_fn(u32) -> u32, nb: u32) -> Beam {
        if self.visited.contains(nb) {
            self
        } else {
            Beam {
                pool: welcomed(self.pool, ef, score(nb), nb),
                visited: self.visited.insert(nb),
                expanded: self.expanded,
            }
        }
    }

    /// The state after a list of neighbors was welcomed.
    pub open spec fn welcome_all(self, ef: nat, score: spec_fn(u32) -> u32, nbs: Seq<u32>) -> Beam
        decreases nbs.len(),
    {
        if nbs.len() == 0 {
            self
        } else {
            self.welcome_all(ef, score, nbs.drop_last()).welcome(ef, score, nbs.last())
        }
    }

    /// The state after several lists of neighbors came in.
    pub open spec fn absorb_lists(self, ef: nat, score: spec_fn(u32) -> u32, lists: Seq<Seq<u32>>) -> Beam
        decreases lists.len(),
    {
        if lists.len() == 0 {
            self
        } else {
            self.absorb_lists(ef, score, lists.drop_last()).absorb_all(ef, score, lists.last())
        }
    }

    /// The state after one round: expand, then take in the neighbors of
    /// every expanded node.
    pub open spec fn round(self, ef: nat, w: nat, score: spec_fn(u32) -> u32, lists: Seq<Seq<u32>>) -> Beam {
        self.expand(w).absorb_lists(ef, score, lists)
    }

    /// The state after a number of rounds.
    pub open spec fn run(self, ef: nat, w: nat, score: spec_fn(u32) -> u32, rounds: Seq<Seq<Seq<u32>>>) -> Beam
        decreases rounds.len(),
    {
        if rounds.len() == 0 {
            self
        } else {
            self.run(ef, w, score, rounds.drop_last()).round(ef, w, score, rounds.last())
        }
    }

    /// The lists are the answers for the nodes that this state expands next.
    pub open spec fn answered(self, w: nat, lists: Seq<Seq<u32>>, answer: spec_fn(u32, Seq<u32>) -> bool) -> bool {
        &&& self.frontier(w).len() > 0
        &&& lists.len() == self.frontier(w).len()
        &&& forall|i: int| 0 <= i < lists.len() ==> answer(self.frontier(w)[i], #[trigger] lists[i])
    }

    /// Each round's lists are the answers for the nodes that it expanded.
    pub open spec fn trace(
        self,
        ef: nat,
        w: nat,
        score: spec_fn(u32) -> u32,
        rounds: Seq<Seq<Seq<u32>>>,
        answer: spec_fn(u32, Seq<u32>) -> bool,
    ) -> bool
        decreases rounds.len(),
    {
        rounds.len() == 0 || (self.trace(ef, w, score, rounds.drop_last(), answer) && self.run(
            ef,
            w,
            score,
            rounds.drop_last(),
        ).answered(w, rounds.last(), answer))
    }

    /// A search from this state, round by round until nothing is left to
    /// expand, ends in `end`.
    pub open spec fn settles(
        self,
        ef: nat,
        w: nat,
        score: spec_fn(u32) -> u32,
        rounds: Seq<Seq<Seq<u32>>>,
        answer: spec_fn(u32, Seq<u32>) -> bool,
        end: Beam,
    ) -> bool {
        &&& self.trace(ef, w, score, rounds, answer)
        &&& self.run(ef, w, score, rounds) == end
        &&& end.frontier(w).len() == 0
    }

    /// `id` was expanded.
    pub open spec fn has_expanded(self, id: u32) -> bool {
        names(self.expanded, id)
    }

    /// No node stands in the pool twice or is expanded twice; whatever is in
    /// the pool or expanded was visited; and the marks in the pool tell what
    /// is expanded.
    pub open spec fn wf(self) -> bool {
        &&& forall|i: int, j: int|
            0 <= i < j < self.pool.len() ==> (#[trigger] self.pool[i]).id != (#[trigger] self.pool[j]).id
        &&& forall|i: int| 0 <= i < self.pool.len() ==> self.visited.contains((#[trigger] self.pool[i]).id)
        &&& forall|i: int, j: int|
            0 <= i < j < self.expanded.len() ==> (#[trigger] self.expanded[i]).1 != (#[trigger] self.expanded[j]).1
        &&& forall|i: int| 0 <= i < self.expanded.len() ==> self.visited.contains((#[trigger] self.expanded[i]).1)
        &&& forall|i: int|
            0 <= i < self.pool.len() ==> ((#[trigger] self.pool[i]).expanded <==> self.has_expanded(self.pool[i].id))
    }

    /// Every distance is the score of its node.
    pub open spec fn scored(self, score: spec_fn(u32) -> u32) -> bool {
        &&& forall|i: int| 0 <= i < self.pool.len() ==> (#[trigger] self.pool[i]).dist == score(self.pool[i].id)
        &&& forall|i: int|
            0 <= i < self.expanded.len() ==> (#[trigger] self.expanded[i]).0 == score(self.expanded[i].1)
    }

    /// Every visited node is below `n`.
    pub open spec fn below(self, n: nat) -> bool {
        forall|id: u32| #[trigger] self.visited.contains(id) ==> id < n
    }
}

/// Picked positions ascend, lie among the first `n`, and are unexpanded;
/// nothing unexpanded is left out before the last of them, and nothing at all
/// while there is room.
pub proof fn lemma_picks(pool: Seq<Candidate>, n: nat, w: nat)
    requires
        n <= pool.len(),
    ensures
        picks(pool, n, w).len() <= w,
        picks(pool, n, w).len() <= n,
        forall|i: int|
            0 <= i < picks(pool, n, w).len() ==> 0 <= #[trigger] picks(pool, n, w)[i] < n && !pool[picks(
                pool,
                n,
                w,
            )[i]].expanded,
        forall|i: int, j: int|
            0 <= i < j < picks(pool, n, w).len() ==> #[trigger] picks(pool, n, w)[i] < #[trigger] picks(pool, n, w)[j],
        picks(pool, n, w).len() < w ==> forall|i: int|
            0 <= i < n && !(#[trigger] pool[i]).expanded ==> picks(pool, n, w).contains(i),
    decreases n,
{
    if n > 0 {
        lemma_picks(pool, (n - 1) as nat, w);
        let before = picks(pool, (n - 1) as nat, w);
        let after = picks(pool, n, w);
        if after.len() < w {
            assert forall|i: int| 0 <= i < n && !(#[trigger] pool[i]).expanded implies after.contains(i) by {
                if i == n - 1 {
                    assert(after[after.len() - 1] == i);
                } else {
                    assert(before.contains(i));
                    let j = choose|j: int| 0 <= j < before.len() && before[j] == i;
                    assert(after[j] == i);
                }
            }
        }
    }
}

pub proof fn lemma_seeded(entry: u32, d: u32, score: spec_fn(u32) -> u32)
    ensures
        Beam::seeded(entry, d).wf(),
        d == score(entry) ==> Beam::seeded(entry, d).scored(score),
{
}

/// Expanding keeps the state well formed.
pub proof fn lemma_expand(b: Beam, w: nat)
    requires
        b.wf(),
    ensures
        b.expand(w).wf(),
        b.expand(w).pool.len() == b.pool.len(),
        pairs_of(b.expand(w).pool) == pairs_of(b.pool),
        b.expand(w).expanded.len() == b.expanded.len() + b.frontier(w).len(),
        forall|score: spec_fn(u32) -> u32| b.scored(score) ==> #[trigger] b.expand(w).scored(score),
{
    let at = b.chosen(w);
    let e = b.expand(w);
    lemma_picks(b.pool, b.pool.len(), w);
    assert(pairs_of(e.pool) =~= pairs_of(b.pool));
    let more = pairs_at(b.pool, at);
    assert forall|i: int, j: int| 0 <= i < j < e.expanded.len() implies (#[trigger] e.expanded[i]).1 != (
    #[trigger] e.expanded[j]).1 by {
        let m = b.expanded.len();
        if j < m {
            assert(e.expanded[i] == b.expanded[i] && e.expanded[j] == b.expanded[j]);
        } else if i < m {
            let c = b.pool[at[j - m]];
            assert(!c.expanded);
            assert(e.expanded[j].1 == c.id);
            assert(!b.has_expanded(c.id));
            assert(e.expanded[i] == b.expanded[i]);
        } else {
            assert(at[i - m] < at[j - m]);
            assert(b.pool[at[i - m]].id != b.pool[at[j - m]].id);
        }
    }
    assert forall|i: int| 0 <= i < e.expanded.len() implies e.visited.contains((#[trigger] e.expanded[i]).1) by {
        let m = b.expanded.len();
        if i < m {
            assert(e.expanded[i] == b.expanded[i]);
        } else {
            assert(b.visited.contains(b.pool[at[i - m]].id));
        }
    }
    assert forall|i: int| 0 <= i < e.pool.len() implies ((#[trigger] e.pool[i]).expanded <==> e.has_expanded(
        e.pool[i].id,
    )) by {
        let m = b.expanded.len();
        let id = b.pool[i].id;
        if at.contains(i) {
            let j = choose|j: int| 0 <= j < at.len() && at[j] == i;
            assert(e.expanded[m + j].1 == id);
        } else if b.pool[i].expanded {
            let j = choose|j: int| 0 <= j < b.expanded.len() && (#[trigger] b.expanded[j]).1 == id;
            assert(e.expanded[j].1 == id);
        } else {
            assert(!b.has_expanded(id));
            if e.has_expanded(id) {
                let j = choose|j: int| 0 <= j < e.expanded.len() && (#[trigger] e.expanded[j]).1 == id;
                if j < m {
                    assert(b.expanded[j].1 == id);
                } else {
                    assert(b.pool[at[j - m]].id == id);
                    assert(at[j - m] == i) by {
                        if at[j - m] < i {
                            assert(b.pool[at[j - m]].id != b.pool[i].id);
                        } else if at[j - m] > i {
                            assert(b.pool[i].id != b.pool[at[j - m]].id);
                        }
                    }
                }
            }
        }
    }
    assert forall|score: spec_fn(u32) -> u32| b.scored(score) implies #[trigger] e.scored(score) by {
        assert forall|i: int| 0 <= i < e.expanded.len() implies (#[trigger] e.expanded[i]).0 == score(
            e.expanded[i].1,
        ) by {
            let m = b.expanded.len();
            if i < m {
                assert(e.expanded[i] == b.expanded[i]);
            } else {
                assert(b.pool[at[i - m]].dist == score(b.pool[at[i - m]].id));
            }
        }
        assert forall|i: int| 0 <= i < e.pool.len() implies (#[trigger] e.pool[i]).dist == score(e.pool[i].id) by {
            assert(b.pool[i].dist == score(b.pool[i].id));
        }
    }
}

pub proof fn lemma_bisect_bounds(pool: Seq<Candidate>, d: u32, lo: int, hi: int)
    requires
        0 <= lo <= hi <= pool.len(),
    ensures
        lo <= bisect(pool, d, lo, hi) <= hi,
    decreases hi - lo,
{
    if lo < hi {
        let mid = lo + (hi - lo) / 2;
        if at_most(pool[mid].dist, d) {
            lemma_bisect_bounds(pool, d, mid + 1, hi);
        } else {
            lemma_bisect_bounds(pool, d, lo, mid);
        }
    }
}

/// Each candidate of the squeezed pool is the fresh one or an old one.
pub proof fn lemma_squeezed(pool: Seq<Candidate>, ef: nat, d: u32, id: u32)
    requires
        pool.len() <= ef,
        ef > 0,
    ensures
        squeezed(pool, ef, d, id).len() <= ef,
        squeezed(pool, ef, d, id).len() == (if pool.len() < ef { pool.len() + 1 } else { ef }),
        0 <= slot(pool, d) <= pool.len(),
        forall|i: int|
            0 <= i < squeezed(pool, ef, d, id).len() ==> #[trigger] squeezed(pool, ef, d, id)[i] == (if i < slot(
                pool,
                d,
            ) {
                pool[i]
            } else if i == slot(pool, d) {
                Candidate { dist: d, id, expanded: false }
            } else {
                pool[i - 1]
            }),
{
    lemma_bisect_bounds(pool, d, 0, pool.len() as int);
}

/// A fresh node keeps the state well formed, whether it comes into the pool
/// or is turned away.
proof fn lemma_fresh(b: Beam, a: Beam, ef: nat, score: spec_fn(u32) -> u32, nb: u32)
    requires
        b.wf(),
        b.scored(score),
        b.pool.len() <= ef,
        ef > 0,
        !b.visited.contains(nb),
        a.visited == b.visited.insert(nb),
        a.expanded == b.expanded,
        a.pool == b.pool || a.pool == squeezed(b.pool, ef, score(nb), nb),
    ensures
        a.wf(),
        a.scored(score),
        a.pool.len() <= ef,
{
    lemma_squeezed(b.pool, ef, score(nb), nb);
    let at = slot(b.pool, score(nb));
    assert(!b.has_expanded(nb));
    assert forall|id: u32| a.has_expanded(id) == b.has_expanded(id) by {}
    if a.pool == b.pool {
        assert forall|i: int| 0 <= i < a.pool.len() implies (a.pool[i].expanded <==> a.has_expanded(
            (#[trigger] a.pool[i]).id,
        )) && a.visited.contains(a.pool[i].id) && a.pool[i].dist == score(a.pool[i].id) by {
            assert(a.pool[i] == b.pool[i]);
        }
    } else {
        assert forall|i: int, j: int| 0 <= i < j < a.pool.len() implies (#[trigger] a.pool[i]).id != (
        #[trigger] a.pool[j]).id by {
            let oi = if i < at { i } else { i - 1 };
            let oj = if j < at { j } else { j - 1 };
            if i != at {
                assert(a.pool[i] == b.pool[oi]);
                assert(b.visited.contains(b.pool[oi].id));
            }
            if j != at {
                assert(a.pool[j] == b.pool[oj]);
                assert(b.visited.contains(b.pool[oj].id));
            }
            if i != at && j != at {
                assert(oi < oj);
                assert(b.pool[oi].id != b.pool[oj].id);
            }
        }
        assert forall|i: int| 0 <= i < a.pool.len() implies a.visited.contains((#[trigger] a.pool[i]).id) && (
        a.pool[i].expanded <==> a.has_expanded(a.pool[i].id)) && a.pool[i].dist == score(a.pool[i].id) by {
            let oi = if i < at { i } else { i - 1 };
            if i != at {
                assert(a.pool[i] == b.pool[oi]);
                assert(b.visited.contains(b.pool[oi].id));
            }
        }
    }
}

/// Taking in a neighbor keeps the state well formed.
pub proof fn lemma_absorb(b: Beam, ef: nat, score: spec_fn(u32) -> u32, nb: u32)
    requires
        b.wf(),
        b.scored(score),
        b.pool.len() <= ef,
        ef > 0,
    ensures
        b.absorb(ef, score, nb).wf(),
        b.absorb(ef, score, nb).scored(score),
        b.absorb(ef, score, nb).pool.len() <= ef,
        b.absorb(ef, score, nb).expanded == b.expanded,
        b.absorb(ef, score, nb).visited == b.visited.insert(nb),
{
    if b.visited.contains(nb) {
        assert(b.visited.insert(nb) =~= b.visited);
    } else {
        lemma_fresh(b, b.absorb(ef, score, nb), ef, score, nb);
    }
}

/// Welcoming a neighbor keeps the state well formed.
pub proof fn lemma_welcome(b: Beam, ef: nat, score: spec_fn(u32) -> u32, nb: u32)
    requires
        b.wf(),
        b.scored(score),
        b.pool.len() <= ef,
        ef > 0,
    ensures
        b.welcome(ef, score, nb).wf(),
        b.welcome(ef, score, nb).scored(score),
        b.welcome(ef, score, nb).pool.len() <= ef,
        b.welcome(ef, score, nb).expanded == b.expanded,
        b.welcome(ef, score, nb).visited == b.visited.insert(nb),
{
    if b.visited.contains(nb) {
        assert(b.visited.insert(nb) =~= b.visited);
    } else {
        lemma_fresh(b, b.welcome(ef, score, nb), ef, score, nb);
    }
}

/// Welcoming a list of neighbors keeps the state well formed.
pub proof fn lemma_welcome_all(b: Beam, ef: nat, score: spec_fn(u32) -> u32, nbs: Seq<u32>, n: nat)
    requires
        b.wf(),
        b.scored(score),
        b.pool.len() <= ef,
        ef > 0,
        b.below(n),
        in_range(nbs, n),
    ensures
        b.welcome_all(ef, score, nbs).wf(),
        b.welcome_all(ef, score, nbs).scored(score),
        b.welcome_all(ef, score, nbs).pool.len() <= ef,
        b.welcome_all(ef, score, nbs).expanded == b.expanded,
        b.welcome_all(ef, score, nbs).below(n),
    decreases nbs.len(),
{
    if nbs.len() > 0 {
        let init = nbs.drop_last();
        assert forall|i: int| 0 <= i < init.len() implies #[trigger] init[i] < n by {
            assert(init[i] == nbs[i]);
        }
        lemma_welcome_all(b, ef, score, init, n);
        lemma_welcome(b.welcome_all(ef, score, init), ef, score, nbs.last());
        assert(nbs[nbs.len() - 1] < n);
    }
}

/// Welcoming neighbors expands nothing, and forgets nothing.
pub proof fn lemma_welcome_expanded(b: Beam, ef: nat, score: spec_fn(u32) -> u32, nbs: Seq<u32>)
    ensures
        b.welcome_all(ef, score, nbs).expanded == b.expanded,
        b.visited.subset_of(b.welcome_all(ef, score, nbs).visited),
    decreases nbs.len(),
{
    if nbs.len() > 0 {
        lemma_welcome_expanded(b, ef, score, nbs.drop_last());
    }
}

/// While the scores are numbers, to welcome is to absorb.
pub proof fn lemma_welcome_is_absorb(b: Beam, ef: nat, score: spec_fn(u32) -> u32, nbs: Seq<u32>)
    requires
        b.wf(),
        b.scored(score),
        b.pool.len() <= ef,
        ef > 0,
        numbers_on(score, b.welcome_all(ef, score, nbs).visited),
    ensures
        b.welcome_all(ef, score, nbs) == b.absorb_all(ef, score, nbs),
    decreases nbs.len(),
{
    if nbs.len() > 0 {
        let init = nbs.drop_last();
        let c = b.welcome_all(ef, score, init);
        let a = b.welcome_all(ef, score, nbs);
        assert forall|id: u32| #[trigger] c.visited.contains(id) implies !is_nan(score(id)) by {
            assert(a.visited.contains(id));
        }
        lemma_welcome_is_absorb(b, ef, score, init);
        lemma_welcome_all(b, ef, score, init, 0x1_0000_0000);
        assert(a.visited.contains(nbs.last()));
        if c.pool.len() >= ef {
            let last = c.pool[c.pool.len() - 1];
            assert(c.visited.contains(last.id));
            assert(last.dist == score(last.id));
        }
    }
}

/// Taking in two lists one after the other is taking in their concatenation.
pub proof fn lemma_absorb_concat(b: Beam, ef: nat, score: spec_fn(u32) -> u32, s: Seq<u32>, t: Seq<u32>)
    ensures
        b.absorb_all(ef, score, s + t) == b.absorb_all(ef, score, s).absorb_all(ef, score, t),
    decreases t.len(),
{
    if t.len() == 0 {
        assert(s + t =~= s);
    } else {
        assert((s + t).drop_last() =~= s + t.drop_last());
        lemma_absorb_concat(b, ef, score, s, t.drop_last());
    }
}

/// Taking in several lists is taking in their concatenation.
pub proof fn lemma_absorb_flatten(b: Beam, ef: nat, score: spec_fn(u32) -> u32, lists: Seq<Seq<u32>>)
    ensures
        b.absorb_lists(ef, score, lists) == b.absorb_all(ef, score, lists.flatten()),
    decreases lists.len(),
{
    if lists.len() == 0 {
    } else {
        let init = lists.drop_last();
        lemma_absorb_flatten(b, ef, score, init);
        init.lemma_flatten_push(lists.last());
        assert(init.push(lists.last()) =~= lists);
        lemma_absorb_concat(b, ef, score, init.flatten(), lists.last());
    }
}

/// The ids of a list.
pub open spec fn id_set(ids: Seq<u32>) -> Set<u32> {
    Set::new(|id: u32| ids.contains(id))
}

/// Taking in a list of neighbors keeps the state well formed.
pub proof fn lemma_absorb_all(b: Beam, ef: nat, score: spec_fn(u32) -> u32, nbs: Seq<u32>)
    requires
        b.wf(),
        b.scored(score),
        b.pool.len() <= ef,
        ef > 0,
    ensures
        b.absorb_all(ef, score, nbs).wf(),
        b.absorb_all(ef, score, nbs).scored(score),
        b.absorb_all(ef, score, nbs).pool.len() <= ef,
        b.absorb_all(ef, score, nbs).expanded == b.expanded,
        b.absorb_all(ef, score, nbs).visited == b.visited.union(id_set(nbs)),
    decreases nbs.len(),
{
    if nbs.len() == 0 {
        assert(b.visited.union(id_set(nbs)) =~= b.visited);
    } else {
        let init = nbs.drop_last();
        lemma_absorb_all(b, ef, score, init);
        lemma_absorb(b.absorb_all(ef, score, init), ef, score, nbs.last());
        assert(nbs =~= init.push(nbs.last()));
        assert forall|id: u32| nbs.contains(id) implies init.contains(id) || id == nbs.last() by {
            let i = choose|i: int| 0 <= i < nbs.len() && nbs[i] == id;
            if i < init.len() {
                assert(init[i] == id);
            }
        }
        assert forall|id: u32| init.contains(id) || id == nbs.last() implies nbs.contains(id) by {
            if id == nbs.last() {
                assert(nbs[nbs.len() - 1] == id);
            } else {
                let i = choose|i: int| 0 <= i < init.len() && init[i] == id;
                assert(nbs[i] == id);
            }
        }
        assert(b.visited.union(id_set(init)).insert(nbs.last()) =~= b.visited.union(id_set(nbs)));
    }
}

/// All ids of several lists.
pub open spec fn lists_set(lists: Seq<Seq<u32>>) -> Set<u32> {
    Set::new(|id: u32| exists|i: int| 0 <= i < lists.len() && (#[trigger] lists[i]).contains(id))
}

/// Taking in several lists keeps the state well formed.
pub proof fn lemma_absorb_lists(b: Beam, ef: nat, score: spec_fn(u32) -> u32, lists: Seq<Seq<u32>>)
    requires
        b.wf(),
        b.scored(score),
        b.pool.len() <= ef,
        ef > 0,
    ensures
        b.absorb_lists(ef, score, lists).wf(),
        b.absorb_lists(ef, score, lists).scored(score),
        b.absorb_lists(ef, score, lists).pool.len() <= ef,
        b.absorb_lists(ef, score, lists).expanded == b.expanded,
        b.absorb_lists(ef, score, lists).visited == b.visited.union(lists_set(lists)),
    decreases lists.len(),
{
    if lists.len() == 0 {
        assert(b.visited.union(lists_set(lists)) =~= b.visited);
    } else {
        let init = lists.drop_last();
        lemma_absorb_lists(b, ef, score, init);
        lemma_absorb_all(b.absorb_lists(ef, score, init), ef, score, lists.last());
        assert forall|id: u32| lists_set(lists).contains(id) implies lists_set(init).contains(id)
            || lists.last().contains(id) by {
            let i = choose|i: int| 0 <= i < lists.len() && (#[trigger] lists[i]).contains(id);
            if i < init.len() {
                assert(init[i].contains(id));
            }
        }
        assert forall|id: u32| lists_set(init).contains(id) || lists.last().contains(id) implies lists_set(
            lists,
        ).contains(id) by {
            if lists.last().contains(id) {
                assert(lists[lists.len() - 1].contains(id));
            } else {
                let i = choose|i: int| 0 <= i < init.len() && (#[trigger] init[i]).contains(id);
                assert(lists[i].contains(id));
            }
        }
        assert(b.visited.union(lists_set(init)).union(id_set(lists.last())) =~= b.visited.union(lists_set(lists)));
    }
}

/// Whatever was expanded is visited, and so there are no more expanded nodes
/// than nodes.
pub proof fn lemma_expanded_bound(b: Beam, n: nat)
    requires
        b.wf(),
        b.below(n),
    ensures
        b.expanded.len() <= n,
{
    let ids = Seq::new(b.expanded.len(), |i: int| b.expanded[i].1 as int);
    let all = Seq::new(n, |i: int| i);
    assert(ids.no_duplicates()) by {
        assert forall|i: int, j: int| 0 <= i < ids.len() && 0 <= j < ids.len() && i != j implies ids[i] != ids[j] by {
            if i < j {
                assert(b.expanded[i].1 != b.expanded[j].1);
            } else {
                assert(b.expanded[j].1 != b.expanded[i].1);
            }
        }
    }
    assert forall|i: int| 0 <= i < ids.len() implies all.contains(#[trigger] ids[i]) by {
        assert(b.visited.contains(b.expanded[i].1));
        assert(all[ids[i]] == ids[i]);
    }
    lemma_subset_len(ids, all);
}

/// A list of lists holds only ids below `n`.
pub open spec fn lists_in_range(lists: Seq<Seq<u32>>, n: nat) -> bool {
    forall|i: int| 0 <= i < lists.len() ==> in_range(#[trigger] lists[i], n)
}

/// A round keeps the state well formed and expands exactly its frontier.
pub proof fn lemma_round(b: Beam, ef: nat, w: nat, score: spec_fn(u32) -> u32, lists: Seq<Seq<u32>>)
    requires
        b.wf(),
        b.scored(score),
        b.pool.len() <= ef,
        ef > 0,
    ensures
        b.round(ef, w, score, lists).wf(),
        b.round(ef, w, score, lists).scored(score),
        b.round(ef, w, score, lists).pool.len() <= ef,
        b.round(ef, w, score, lists).expanded == b.expanded + pairs_at(b.pool, b.chosen(w)),
        b.round(ef, w, score, lists).visited == b.visited.union(lists_set(lists)),
{
    lemma_expand(b, w);
    lemma_absorb_lists(b.expand(w), ef, score, lists);
}

/// Answers stay below `n`, so the visited nodes do.
pub proof fn lemma_round_below(b: Beam, lists: Seq<Seq<u32>>, n: nat)
    requires
        b.below(n),
        lists_in_range(lists, n),
    ensures
        forall|id: u32| #[trigger] b.visited.union(lists_set(lists)).contains(id) ==> id < n,
{
    assert forall|id: u32| #[trigger] b.visited.union(lists_set(lists)).contains(id) implies id < n by {
        if !b.visited.contains(id) {
            let i = choose|i: int| 0 <= i < lists.len() && (#[trigger] lists[i]).contains(id);
            let j = choose|j: int| 0 <= j < lists[i].len() && lists[i][j] == id;
            assert(in_range(lists[i], n));
            assert(lists[i][j] < n);
        }
    }
}

/// Rounds keep the state well formed.
pub proof fn lemma_run(start: Beam, ef: nat, w: nat, score: spec_fn(u32) -> u32, rounds: Seq<Seq<Seq<u32>>>)
    requires
        start.wf(),
        start.scored(score),
        start.pool.len() <= ef,
        ef > 0,
    ensures
        start.run(ef, w, score, rounds).wf(),
        start.run(ef, w, score, rounds).scored(score),
        start.run(ef, w, score, rounds).pool.len() <= ef,
    decreases rounds.len(),
{
    if rounds.len() > 0 {
        lemma_run(start, ef, w, score, rounds.drop_last());
        lemma_round(start.run(ef, w, score, rounds.drop_last()), ef, w, score, rounds.last());
    }
}

/// No node is expanded twice, and only nodes that exist are: with `n` nodes a
/// search ends after at most `n` expansions.
pub proof fn law_expands_each_node_once(
    entry: u32,
    ef: nat,
    w: nat,
    score: spec_fn(u32) -> u32,
    rounds: Seq<Seq<Seq<u32>>>,
    n: nat,
)
    requires
        ef > 0,
        entry < n,
        forall|j: int| 0 <= j < rounds.len() ==> lists_in_range(#[trigger] rounds[j], n),
    ensures
        ({
            let end = Beam::seeded(entry, score(entry)).run(ef, w, score, rounds);
            &&& forall|i: int, j: int|
                0 <= i < j < end.expanded.len() ==> (#[trigger] end.expanded[i]).1 != (#[trigger] end.expanded[j]).1
            &&& forall|i: int| 0 <= i < end.expanded.len() ==> (#[trigger] end.expanded[i]).1 < n
            &&& end.expanded.len() <= n
        }),
{
    let start = Beam::seeded(entry, score(entry));
    let end = start.run(ef, w, score, rounds);
    lemma_run(start, ef, w, score, rounds);
    lemma_run_below(start, ef, w, score, rounds, n);
    lemma_expanded_bound(end, n);
    assert forall|i: int| 0 <= i < end.expanded.len() implies (#[trigger] end.expanded[i]).1 < n by {
        assert(end.visited.contains(end.expanded[i].1));
    }
}

/// A search expands its entry point first, and asks for the neighbors of
/// every node that it expands once, in the order of expansion, and of no other
/// node. Every distance is the score of its node.
pub proof fn law_search_starts_at_its_entry(
    entry: u32,
    ef: nat,
    w: nat,
    score: spec_fn(u32) -> u32,
    rounds: Seq<Seq<Seq<u32>>>,
    answer: spec_fn(u32, Seq<u32>) -> bool,
    end: Beam,
)
    requires
        ef > 0,
        w > 0,
        Beam::seeded(entry, score(entry)).settles(ef, w, score, rounds, answer, end),
    ensures
        end.expanded.len() >= 1,
        end.expanded[0] == (score(entry), entry),
        forall|i: int| 0 <= i < end.expanded.len() ==> (#[trigger] end.expanded[i]).0 == score(end.expanded[i].1),
        rounds.flatten().len() == end.expanded.len(),
        forall|i: int| 0 <= i < end.expanded.len() ==> answer((#[trigger] end.expanded[i]).1, rounds.flatten()[i]),
{
    let start = Beam::seeded(entry, score(entry));
    lemma_seeded(entry, score(entry), score);
    lemma_run(start, ef, w, score, rounds);
    lemma_answers_in_order(entry, ef, w, score, rounds, answer);
    if rounds.len() == 0 {
        reveal_with_fuel(picks, 2);
    }
}

pub proof fn lemma_answers_in_order(
    entry: u32,
    ef: nat,
    w: nat,
    score: spec_fn(u32) -> u32,
    rounds: Seq<Seq<Seq<u32>>>,
    answer: spec_fn(u32, Seq<u32>) -> bool,
)
    requires
        ef > 0,
        w > 0,
        Beam::seeded(entry, score(entry)).trace(ef, w, score, rounds, answer),
    ensures
        ({
            let end = Beam::seeded(entry, score(entry)).run(ef, w, score, rounds);
            &&& rounds.flatten().len() == end.expanded.len()
            &&& forall|i: int|
                0 <= i < end.expanded.len() ==> answer((#[trigger] end.expanded[i]).1, rounds.flatten()[i])
            &&& rounds.len() > 0 ==> end.expanded.len() >= 1 && end.expanded[0] == (score(entry), entry)
        }),
    decreases rounds.len(),
{
    if rounds.len() > 0 {
        let start = Beam::seeded(entry, score(entry));
        let init = rounds.drop_last();
        let lists = rounds.last();
        let b = start.run(ef, w, score, init);
        let end = start.run(ef, w, score, rounds);
        lemma_seeded(entry, score(entry), score);
        lemma_answers_in_order(entry, ef, w, score, init, answer);
        lemma_run(start, ef, w, score, init);
        lemma_round(b, ef, w, score, lists);
        init.lemma_flatten_push(lists);
        assert(init.push(lists) =~= rounds);
        assert forall|i: int| 0 <= i < end.expanded.len() implies answer(
            (#[trigger] end.expanded[i]).1,
            rounds.flatten()[i],
        ) by {
            if i < b.expanded.len() {
                assert(end.expanded[i] == b.expanded[i]);
                assert(rounds.flatten()[i] == init.flatten()[i]);
            } else {
                let j = i - b.expanded.len();
                assert(end.expanded[i].1 == b.frontier(w)[j]);
                assert(rounds.flatten()[i] == lists[j]);
            }
        }
        if init.len() == 0 {
            reveal_with_fuel(picks, 2);
            assert(b.chosen(w) =~= seq![0int]);
            assert(end.expanded[0] == pairs_at(b.pool, b.chosen(w))[0]);
        } else {
            assert(end.expanded[0] == b.expanded[0]);
        }
    }
}

/// Answers stay below `n`, so the visited nodes do, round after round.
pub proof fn lemma_run_below(
    start: Beam,
    ef: nat,
    w: nat,
    score: spec_fn(u32) -> u32,
    rounds: Seq<Seq<Seq<u32>>>,
    n: nat,
)
    requires
        start.wf(),
        start.scored(score),
        start.pool.len() <= ef,
        ef > 0,
        start.below(n),
        forall|j: int| 0 <= j < rounds.len() ==> lists_in_range(#[trigger] rounds[j], n),
    ensures
        start.run(ef, w, score, rounds).below(n),
    decreases rounds.len(),
{
    if rounds.len() > 0 {
        let init = rounds.drop_last();
        assert forall|j: int| 0 <= j < init.len() implies lists_in_range(#[trigger] init[j], n) by {
            assert(init[j] == rounds[j]);
        }
        lemma_run_below(start, ef, w, score, init, n);
        lemma_run(start, ef, w, score, init);
        let b = start.run(ef, w, score, init);
        lemma_round(b, ef, w, score, rounds.last());
        assert(lists_in_range(rounds[rounds.len() - 1], n));
        lemma_round_below(b, rounds.last(), n);
    }
}

/// One answer per node settles the rounds.
proof fn lemma_trace_prefix(
    start: Beam,
    ef: nat,
    w: nat,
    score: spec_fn(u32) -> u32,
    rounds: Seq<Seq<Seq<u32>>>,
    answer: spec_fn(u32, Seq<u32>) -> bool,
    j: int,
)
    requires
        start.trace(ef, w, score, rounds, answer),
        0 <= j <= rounds.len(),
    ensures
        start.trace(ef, w, score, rounds.take(j), answer),
        j < rounds.len() ==> start.run(ef, w, score, rounds.take(j)).answered(w, rounds[j], answer),
    decreases rounds.len(),
{
    if j == rounds.len() {
        assert(rounds.take(j) =~= rounds);
    } else {
        let init = rounds.drop_last();
        lemma_trace_prefix(start, ef, w, score, init, answer, j);
        assert(init.take(j) =~= rounds.take(j));
        if j == init.len() {
            assert(init.take(j) =~= init);
        } else {
            assert(init[j] == rounds[j]);
        }
    }
}

proof fn lemma_rounds_agree(
    start: Beam,
    ef: nat,
    w: nat,
    score: spec_fn(u32) -> u32,
    a: Seq<Seq<Seq<u32>>>,
    b: Seq<Seq<Seq<u32>>>,
    answer: spec_fn(u32, Seq<u32>) -> bool,
    j: int,
)
    requires
        start.trace(ef, w, score, a, answer),
        start.trace(ef, w, score, b, answer),
        forall|id: u32, k: Seq<u32>, l: Seq<u32>| #[trigger] answer(id, k) && #[trigger] answer(id, l) ==> k == l,
        0 <= j <= a.len(),
        j <= b.len(),
    ensures
        a.take(j) == b.take(j),
    decreases j,
{
    if j > 0 {
        lemma_rounds_agree(start, ef, w, score, a, b, answer, j - 1);
        lemma_trace_prefix(start, ef, w, score, a, answer, j - 1);
        lemma_trace_prefix(start, ef, w, score, b, answer, j - 1);
        let at = start.run(ef, w, score, a.take(j - 1));
        assert(at.answered(w, a[j - 1], answer));
        assert(at.answered(w, b[j - 1], answer));
        let la = a[j - 1];
        let lb = b[j - 1];
        assert forall|i: int| 0 <= i < la.len() implies la[i] == lb[i] by {
            assert(answer(at.frontier(w)[i], la[i]));
            assert(answer(at.frontier(w)[i], lb[i]));
        }
        assert(la =~= lb);
        assert(a.take(j) =~= a.take(j - 1).push(a[j - 1]));
        assert(b.take(j) =~= b.take(j - 1).push(b[j - 1]));
    } else {
        assert(a.take(j) =~= b.take(j));
    }
}

/// Where every node has one list of neighbors, a search has one outcome: the
/// same rounds, the same expansions in the same order, the same pool.
pub proof fn law_search_is_deterministic(
    start: Beam,
    ef: nat,
    w: nat,
    score: spec_fn(u32) -> u32,
    answer: spec_fn(u32, Seq<u32>) -> bool,
    a: Seq<Seq<Seq<u32>>>,
    end_a: Beam,
    b: Seq<Seq<Seq<u32>>>,
    end_b: Beam,
)
    requires
        start.settles(ef, w, score, a, answer, end_a),
        start.settles(ef, w, score, b, answer, end_b),
        forall|id: u32, k: Seq<u32>, l: Seq<u32>| #[trigger] answer(id, k) && #[trigger] answer(id, l) ==> k == l,
    ensures
        a == b,
        end_a == end_b,
{
    let j = if a.len() < b.len() { a.len() } else { b.len() };
    lemma_rounds_agree(start, ef, w, score, a, b, answer, j as int);
    assert(a.take(a.len() as int) =~= a);
    assert(b.take(b.len() as int) =~= b);
    if a.len() < b.len() {
        lemma_trace_prefix(start, ef, w, score, b, answer, j as int);
    } else if b.len() < a.len() {
        lemma_trace_prefix(start, ef, w, score, a, answer, j as int);
    }
}

/// The pool stands in order of distance.
pub open spec fn pool_sorted(pool: Seq<Candidate>) -> bool {
    forall|i: int, j: int| 0 <= i <= j < pool.len() ==> at_most((#[trigger] pool[i]).dist, (#[trigger] pool[j]).dist)
}

/// In a sorted pool halving finds the boundary between the candidates that
/// are at most `d` away and those that are further.
pub proof fn lemma_bisect_sorted(pool: Seq<Candidate>, d: u32, lo: int, hi: int)
    requires
        pool_sorted(pool),
        !is_nan(d),
        0 <= lo <= hi <= pool.len(),
        forall|i: int| 0 <= i < lo ==> at_most((#[trigger] pool[i]).dist, d),
        forall|i: int| hi <= i < pool.len() ==> precedes(d, (#[trigger] pool[i]).dist),
    ensures
        forall|i: int| 0 <= i < bisect(pool, d, lo, hi) ==> at_most((#[trigger] pool[i]).dist, d),
        forall|i: int| bisect(pool, d, lo, hi) <= i < pool.len() ==> precedes(d, (#[trigger] pool[i]).dist),
    decreases hi - lo,
{
    if lo < hi {
        let mid = lo + (hi - lo) / 2;
        assert(at_most(pool[mid].dist, pool[mid].dist));
        if at_most(pool[mid].dist, d) {
            assert forall|i: int| 0 <= i < mid + 1 implies at_most((#[trigger] pool[i]).dist, d) by {
                assert(at_most(pool[i].dist, pool[mid].dist));
            }
            lemma_bisect_sorted(pool, d, mid + 1, hi);
        } else {
            assert forall|i: int| mid <= i < pool.len() implies precedes(d, (#[trigger] pool[i]).dist) by {
                assert(at_most(pool[mid].dist, pool[i].dist));
            }
            lemma_bisect_sorted(pool, d, lo, mid);
        }
    }
}

/// The pool is in order, and whatever was visited is in it, or else it is
/// full and nothing in it is further away.
pub open spec fn holds_closest(b: Beam, ef: nat, score: spec_fn(u32) -> u32) -> bool {
    &&& pool_sorted(b.pool)
    &&& forall|id: u32| #[trigger]
        b.visited.contains(id) ==> in_pool(b.pool, id) || (b.pool.len() == ef && forall|i: int|
            0 <= i < b.pool.len() ==> at_most((#[trigger] b.pool[i]).dist, score(id)))
}

/// A node stands in the pool.
pub open spec fn in_pool(pool: Seq<Candidate>, id: u32) -> bool {
    exists|i: int| 0 <= i < pool.len() && (#[trigger] pool[i]).id == id
}

proof fn lemma_absorb_closest(b: Beam, ef: nat, score: spec_fn(u32) -> u32, nb: u32)
    requires
        b.wf(),
        b.scored(score),
        b.pool.len() <= ef,
        ef > 0,
        holds_closest(b, ef, score),
        !is_nan(score(nb)),
    ensures
        holds_closest(b.absorb(ef, score, nb), ef, score),
{
    let a = b.absorb(ef, score, nb);
    let d = score(nb);
    if !b.visited.contains(nb) {
        if b.pool.len() > 0 {
            assert(at_most(b.pool.last().dist, b.pool.last().dist));
        }
        if b.pool.len() < ef || precedes(d, b.pool.last().dist) {
            lemma_squeezed(b.pool, ef, d, nb);
            lemma_bisect_sorted(b.pool, d, 0, b.pool.len() as int);
            let at = slot(b.pool, d);
            assert(at < a.pool.len());
            assert(a.pool[at].id == nb);
            assert forall|i: int, j: int| 0 <= i <= j < a.pool.len() implies at_most(
                (#[trigger] a.pool[i]).dist,
                (#[trigger] a.pool[j]).dist,
            ) by {
                let oi = if i < at { i } else { i - 1 };
                let oj = if j < at { j } else { j - 1 };
                if i != at && j != at {
                    assert(at_most(b.pool[oi].dist, b.pool[oj].dist));
                } else if i == at && j != at {
                    assert(precedes(d, b.pool[oj].dist));
                } else if j == at && i != at {
                    assert(at_most(b.pool[oi].dist, d));
                }
            }
            assert forall|id: u32| #[trigger] a.visited.contains(id) implies in_pool(a.pool, id) || (a.pool.len() == ef
                && forall|i: int| 0 <= i < a.pool.len() ==> at_most((#[trigger] a.pool[i]).dist, score(id))) by {
                if id != nb && !in_pool(a.pool, id) {
                    let last = b.pool[b.pool.len() - 1];
                    if in_pool(b.pool, id) {
                        let i = choose|i: int| 0 <= i < b.pool.len() && (#[trigger] b.pool[i]).id == id;
                        if i < at {
                            assert(a.pool[i].id == id);
                        } else if i + 1 < a.pool.len() {
                            assert(a.pool[i + 1].id == id);
                        }
                        assert(i == b.pool.len() - 1 && b.pool.len() == ef);
                        assert(last.dist == score(id));
                    } else {
                        assert(at_most(last.dist, score(id)));
                    }
                    assert forall|i: int| 0 <= i < a.pool.len() implies at_most(
                        (#[trigger] a.pool[i]).dist,
                        score(id),
                    ) by {
                        let oi = if i < at { i } else { i - 1 };
                        if i != at {
                            assert(at_most(b.pool[oi].dist, b.pool[b.pool.len() - 1].dist));
                        } else {
                            assert(at_most(d, last.dist));
                        }
                    }
                }
            }
        } else {
            assert forall|i: int| 0 <= i < a.pool.len() implies at_most((#[trigger] a.pool[i]).dist, d) by {
                assert(at_most(b.pool[i].dist, b.pool[b.pool.len() - 1].dist));
            }
        }
    }
}

proof fn lemma_absorb_all_closest(b: Beam, ef: nat, score: spec_fn(u32) -> u32, nbs: Seq<u32>)
    requires
        b.wf(),
        b.scored(score),
        b.pool.len() <= ef,
        ef > 0,
        holds_closest(b, ef, score),
        numbers_on(score, b.absorb_all(ef, score, nbs).visited),
    ensures
        holds_closest(b.absorb_all(ef, score, nbs), ef, score),
    decreases nbs.len(),
{
    if nbs.len() > 0 {
        let init = nbs.drop_last();
        let c = b.absorb_all(ef, score, init);
        let a = b.absorb_all(ef, score, nbs);
        assert forall|id: u32| #[trigger] c.visited.contains(id) implies !is_nan(score(id)) by {
            assert(a.visited.contains(id));
        }
        lemma_absorb_all_closest(b, ef, score, init);
        lemma_absorb_all(b, ef, score, init);
        assert(a.visited.contains(nbs.last()));
        lemma_absorb_closest(c, ef, score, nbs.last());
    }
}

proof fn lemma_absorb_lists_closest(b: Beam, ef: nat, score: spec_fn(u32) -> u32, lists: Seq<Seq<u32>>)
    requires
        b.wf(),
        b.scored(score),
        b.pool.len() <= ef,
        ef > 0,
        holds_closest(b, ef, score),
        numbers_on(score, b.absorb_lists(ef, score, lists).visited),
    ensures
        holds_closest(b.absorb_lists(ef, score, lists), ef, score),
    decreases lists.len(),
{
    if lists.len() > 0 {
        let init = lists.drop_last();
        let c = b.absorb_lists(ef, score, init);
        lemma_absorb_lists(b, ef, score, init);
        lemma_absorb_all(c, ef, score, lists.last());
        assert forall|id: u32| #[trigger] c.visited.contains(id) implies !is_nan(score(id)) by {
            assert(b.absorb_lists(ef, score, lists).visited.contains(id));
        }
        lemma_absorb_lists_closest(b, ef, score, init);
        lemma_absorb_all_closest(c, ef, score, lists.last());
    }
}

/// While the scores of the nodes it sees are numbers, a search keeps the `ef`
/// closest of them, in ascending order of distance.
pub proof fn law_keeps_closest_seen(
    entry: u32,
    ef: nat,
    w: nat,
    score: spec_fn(u32) -> u32,
    rounds: Seq<Seq<Seq<u32>>>,
)
    requires
        ef > 0,
        numbers_on(score, Beam::seeded(entry, score(entry)).run(ef, w, score, rounds).visited),
    ensures
        holds_closest(Beam::seeded(entry, score(entry)).run(ef, w, score, rounds), ef, score),
    decreases rounds.len(),
{
    let start = Beam::seeded(entry, score(entry));
    if rounds.len() == 0 {
        assert(start.visited.contains(entry));
        assert(start.pool[0].id == entry);
    } else {
        lemma_run(start, ef, w, score, rounds.drop_last());
        let b = start.run(ef, w, score, rounds.drop_last());
        lemma_round(b, ef, w, score, rounds.last());
        assert forall|id: u32| #[trigger] b.visited.contains(id) implies !is_nan(score(id)) by {
            assert(start.run(ef, w, score, rounds).visited.contains(id));
        }
        law_keeps_closest_seen(entry, ef, w, score, rounds.drop_last());
        let e = b.expand(w);
        lemma_expand(b, w);
        assert forall|i: int| 0 <= i < e.pool.len() implies (#[trigger] e.pool[i]).dist == b.pool[i].dist
            && e.pool[i].id == b.pool[i].id by {}
        assert forall|i: int, j: int| 0 <= i <= j < e.pool.len() implies at_most(
            (#[trigger] e.pool[i]).dist,
            (#[trigger] e.pool[j]).dist,
        ) by {
            assert(at_most(b.pool[i].dist, b.pool[j].dist));
        }
        assert forall|id: u32| #[trigger] e.visited.contains(id) implies in_pool(e.pool, id) || (e.pool.len() == ef
            && forall|i: int| 0 <= i < e.pool.len() ==> at_most((#[trigger] e.pool[i]).dist, score(id))) by {
            assert(b.visited.contains(id));
            if in_pool(b.pool, id) {
                let i = choose|i: int| 0 <= i < b.pool.len() && (#[trigger] b.pool[i]).id == id;
                assert(e.pool[i].id == id);
            } else {
                assert forall|i: int| 0 <= i < e.pool.len() implies at_most(
                    (#[trigger] e.pool[i]).dist,
                    score(id),
                ) by {
                    assert(at_most(b.pool[i].dist, score(id)));
                }
            }
        }
        lemma_absorb_lists_closest(e, ef, score, rounds.last());
    }
}

/// The visited nodes with their scores.
pub open spec fn seen_pairs(visited: Set<u32>, score: spec_fn(u32) -> u32) -> Set<(u32, u32)> {
    Set::new(|e: (u32, u32)| visited.contains(e.1) && e.0 == score(e.1))
}

/// The scores of these nodes are numbers.
pub open spec fn numbers_on(score: spec_fn(u32) -> u32, nodes: Set<u32>) -> bool {
    forall|id: u32| #[trigger] nodes.contains(id) ==> !is_nan(score(id))
}

/// The scores of these nodes are numbers, and no two of them tie.
pub open spec fn distinct_on(score: spec_fn(u32) -> u32, nodes: Set<u32>) -> bool {
    &&& numbers_on(score, nodes)
    &&& forall|a: u32, b: u32| #[trigger]
        nodes.contains(a) && #[trigger] nodes.contains(b) && a != b ==> position(score(a)) != position(score(b))
}

proof fn lemma_seen_tie_free(visited: Set<u32>, score: spec_fn(u32) -> u32)
    requires
        distinct_on(score, visited),
    ensures
        tie_free(seen_pairs(visited, score)),
{
    let seen = seen_pairs(visited, score);
    assert forall|e: (u32, u32)| #[trigger] seen.contains(e) implies !is_nan(e.0) by {
        assert(visited.contains(e.1));
    }
    assert forall|e: (u32, u32), f: (u32, u32)| #[trigger] seen.contains(e) && #[trigger] seen.contains(f) && e
        != f implies position(e.0) != position(f.0) by {
        assert(visited.contains(e.1) && visited.contains(f.1));
    }
}

/// Where some nodes do not tie, fewer do not tie either.
pub proof fn lemma_distinct_subset(score: spec_fn(u32) -> u32, fewer: Set<u32>, nodes: Set<u32>)
    requires
        distinct_on(score, nodes),
        fewer.subset_of(nodes),
    ensures
        distinct_on(score, fewer),
{
    assert forall|id: u32| #[trigger] fewer.contains(id) implies nodes.contains(id) by {}
}

/// Without ties the pool is the closest of what was visited, and stays so.
pub proof fn lemma_absorb_selects(b: Beam, ef: nat, score: spec_fn(u32) -> u32, nb: u32)
    requires
        b.wf(),
        b.scored(score),
        b.pool.len() <= ef,
        ef > 0,
        distinct_on(score, b.absorb(ef, score, nb).visited),
        selects(pairs_of(b.pool), ef, seen_pairs(b.visited, score)),
    ensures
        selects(
            pairs_of(b.absorb(ef, score, nb).pool),
            ef,
            seen_pairs(b.absorb(ef, score, nb).visited, score),
        ),
{
    let a = b.absorb(ef, score, nb);
    if !b.visited.contains(nb) {
        let d = score(nb);
        let e = (d, nb);
        let s = pairs_of(b.pool);
        let seen = seen_pairs(b.visited, score);
        assert(seen_pairs(a.visited, score) =~= seen.insert(e));
        lemma_seen_tie_free(a.visited, score);
        assert(a.visited == b.visited.insert(nb));
        assert(a.visited.contains(nb));
        assert(!is_nan(score(nb)));
        assert forall|i: int| 0 <= i < b.pool.len() implies !is_nan((#[trigger] b.pool[i]).dist) && position(
            b.pool[i].dist,
        ) != position(d) by {
            assert(b.visited.contains(b.pool[i].id));
            assert(a.visited.contains(b.pool[i].id));
            assert(b.pool[i].dist == score(b.pool[i].id));
        }
        assert(pool_sorted(b.pool)) by {
            assert forall|i: int, j: int| 0 <= i <= j < b.pool.len() implies at_most(
                (#[trigger] b.pool[i]).dist,
                (#[trigger] b.pool[j]).dist,
            ) by {
                if i < j {
                    assert(position(s[i].0) < position(s[j].0));
                }
            }
        }
        if b.pool.len() > 0 {
            assert(s.last() == (b.pool.last().dist, b.pool.last().id));
            assert(!is_nan(b.pool[b.pool.len() - 1].dist));
        }
        if b.pool.len() < ef || precedes(d, b.pool.last().dist) {
            lemma_squeezed(b.pool, ef, d, nb);
            lemma_bisect_sorted(b.pool, d, 0, b.pool.len() as int);
            let at = slot(b.pool, d);
            assert forall|i: int| 0 <= i < at implies position((#[trigger] s[i]).0) < position(e.0) by {
                assert(at_most(b.pool[i].dist, d));
            }
            assert forall|i: int| at <= i < s.len() implies position(e.0) < position((#[trigger] s[i]).0) by {
                assert(precedes(d, b.pool[i].dist));
            }
            lemma_selects_insert(s, ef, seen, e, at);
            if b.pool.len() < ef {
                assert(pairs_of(a.pool) =~= s.insert(at, e));
            } else {
                assert(pairs_of(a.pool) =~= s.insert(at, e).drop_last());
            }
        } else {
            lemma_selects_ignore(s, ef, seen, e);
        }
    }
}

pub proof fn lemma_absorb_all_selects(b: Beam, ef: nat, score: spec_fn(u32) -> u32, nbs: Seq<u32>)
    requires
        b.wf(),
        b.scored(score),
        b.pool.len() <= ef,
        ef > 0,
        distinct_on(score, b.absorb_all(ef, score, nbs).visited),
        selects(pairs_of(b.pool), ef, seen_pairs(b.visited, score)),
    ensures
        selects(
            pairs_of(b.absorb_all(ef, score, nbs).pool),
            ef,
            seen_pairs(b.absorb_all(ef, score, nbs).visited, score),
        ),
    decreases nbs.len(),
{
    if nbs.len() > 0 {
        let init = nbs.drop_last();
        let c = b.absorb_all(ef, score, init);
        lemma_distinct_subset(score, c.visited, b.absorb_all(ef, score, nbs).visited);
        lemma_absorb_all_selects(b, ef, score, init);
        lemma_absorb_all(b, ef, score, init);
        lemma_absorb_selects(c, ef, score, nbs.last());
    }
}

pub proof fn lemma_absorb_lists_selects(b: Beam, ef: nat, score: spec_fn(u32) -> u32, lists: Seq<Seq<u32>>)
    requires
        b.wf(),
        b.scored(score),
        b.pool.len() <= ef,
        ef > 0,
        distinct_on(score, b.absorb_lists(ef, score, lists).visited),
        selects(pairs_of(b.pool), ef, seen_pairs(b.visited, score)),
    ensures
        selects(
            pairs_of(b.absorb_lists(ef, score, lists).pool),
            ef,
            seen_pairs(b.absorb_lists(ef, score, lists).visited, score),
        ),
    decreases lists.len(),
{
    if lists.len() > 0 {
        let init = lists.drop_last();
        let c = b.absorb_lists(ef, score, init);
        lemma_absorb_lists(b, ef, score, init);
        lemma_absorb_all(c, ef, score, lists.last());
        lemma_distinct_subset(score, c.visited, b.absorb_lists(ef, score, lists).visited);
        lemma_absorb_lists_selects(b, ef, score, init);
        lemma_absorb_all_selects(c, ef, score, lists.last());
    }
}

/// Two well-formed states that saw the same nodes, expanded the same nodes
/// and hold the closest of them have the same pool.
pub proof fn lemma_same_pool(a: Beam, b: Beam, ef: nat, score: spec_fn(u32) -> u32)
    requires
        a.wf(),
        b.wf(),
        a.visited == b.visited,
        a.expanded == b.expanded,
        selects(pairs_of(a.pool), ef, seen_pairs(a.visited, score)),
        selects(pairs_of(b.pool), ef, seen_pairs(b.visited, score)),
    ensures
        a == b,
{
    lemma_selects_unique(pairs_of(a.pool), pairs_of(b.pool), ef, seen_pairs(a.visited, score));
    assert(a.pool.len() == b.pool.len()) by {
        assert(pairs_of(a.pool).len() == pairs_of(b.pool).len());
    }
    assert forall|i: int| 0 <= i < a.pool.len() implies a.pool[i] == b.pool[i] by {
        assert(pairs_of(a.pool)[i] == pairs_of(b.pool)[i]);
        assert(a.pool[i].expanded == a.has_expanded(a.pool[i].id));
        assert(b.pool[i].expanded == b.has_expanded(b.pool[i].id));
    }
    assert(a.pool =~= b.pool);
}

/// Where the answers for the nodes below `n` are answers of another kind too,
/// a trace is a trace of the other kind.
pub proof fn lemma_trace_weaken(
    start: Beam,
    ef: nat,
    w: nat,
    score: spec_fn(u32) -> u32,
    rounds: Seq<Seq<Seq<u32>>>,
    from: spec_fn(u32, Seq<u32>) -> bool,
    to: spec_fn(u32, Seq<u32>) -> bool,
    n: nat,
)
    requires
        start.wf(),
        start.scored(score),
        start.pool.len() <= ef,
        ef > 0,
        start.below(n),
        start.trace(ef, w, score, rounds, from),
        forall|id: u32, l: Seq<u32>| id < n && #[trigger] from(id, l) ==> to(id, l) && in_range(l, n),
    ensures
        start.trace(ef, w, score, rounds, to),
        start.run(ef, w, score, rounds).below(n),
        forall|j: int| 0 <= j < rounds.len() ==> lists_in_range(#[trigger] rounds[j], n),
    decreases rounds.len(),
{
    if rounds.len() > 0 {
        let init = rounds.drop_last();
        let lists = rounds.last();
        lemma_trace_weaken(start, ef, w, score, init, from, to, n);
        lemma_run(start, ef, w, score, init);
        let b = start.run(ef, w, score, init);
        lemma_picks(b.pool, b.pool.len(), w);
        assert forall|i: int| 0 <= i < lists.len() implies to(b.frontier(w)[i], #[trigger] lists[i]) && in_range(
            lists[i],
            n,
        ) by {
            assert(b.visited.contains(b.pool[b.chosen(w)[i]].id));
            assert(b.frontier(w)[i] < n);
            assert(from(b.frontier(w)[i], lists[i]));
        }
        lemma_round(b, ef, w, score, lists);
        lemma_round_below(b, lists, n);
        assert forall|j: int| 0 <= j < rounds.len() implies lists_in_range(#[trigger] rounds[j], n) by {
            if j < init.len() {
                assert(init[j] == rounds[j]);
            }
        }
    }
}

/// Two searches that get the neighbors of every node from one graph, each in
/// its own way, take the same course.
pub proof fn law_one_graph_one_search(
    entry: u32,
    ef: nat,
    w: nat,
    score: spec_fn(u32) -> u32,
    graph: spec_fn(u32) -> Seq<u32>,
    n: nat,
    from_a: spec_fn(u32, Seq<u32>) -> bool,
    a: Seq<Seq<Seq<u32>>>,
    end_a: Beam,
    from_b: spec_fn(u32, Seq<u32>) -> bool,
    b: Seq<Seq<Seq<u32>>>,
    end_b: Beam,
)
    requires
        ef > 0,
        entry < n,
        forall|id: u32| id < n ==> in_range(#[trigger] graph(id), n),
        forall|id: u32, l: Seq<u32>| id < n && #[trigger] from_a(id, l) ==> l == graph(id),
        forall|id: u32, l: Seq<u32>| id < n && #[trigger] from_b(id, l) ==> l == graph(id),
        Beam::seeded(entry, score(entry)).settles(ef, w, score, a, from_a, end_a),
        Beam::seeded(entry, score(entry)).settles(ef, w, score, b, from_b, end_b),
    ensures
        a == b,
        end_a == end_b,
        forall|j: int| 0 <= j < a.len() ==> lists_in_range(#[trigger] a[j], n),
{
    let start = Beam::seeded(entry, score(entry));
    let to = |id: u32, l: Seq<u32>| l == graph(id);
    lemma_trace_weaken(start, ef, w, score, a, from_a, to, n);
    lemma_trace_weaken(start, ef, w, score, b, from_b, to, n);
    law_search_is_deterministic(start, ef, w, score, to, a, end_a, b, end_b);
}

/// Without ties the pool is the closest of what was visited, round after
/// round.
pub proof fn lemma_run_selects(
    entry: u32,
    ef: nat,
    w: nat,
    score: spec_fn(u32) -> u32,
    rounds: Seq<Seq<Seq<u32>>>,
)
    requires
        ef > 0,
        distinct_on(score, Beam::seeded(entry, score(entry)).run(ef, w, score, rounds).visited),
    ensures
        ({
            let end = Beam::seeded(entry, score(entry)).run(ef, w, score, rounds);
            selects(pairs_of(end.pool), ef, seen_pairs(end.visited, score))
        }),
    decreases rounds.len(),
{
    let start = Beam::seeded(entry, score(entry));
    if rounds.len() == 0 {
        assert forall|e: (u32, u32)| #[trigger] seen_pairs(start.visited, score).contains(e) implies pairs_of(
            start.pool,
        ).contains(e) by {
            assert(pairs_of(start.pool)[0] == e);
        }
    } else {
        let init = rounds.drop_last();
        lemma_run(start, ef, w, score, init);
        let b = start.run(ef, w, score, init);
        lemma_round(b, ef, w, score, rounds.last());
        lemma_distinct_subset(score, b.visited, start.run(ef, w, score, rounds).visited);
        lemma_run_selects(entry, ef, w, score, init);
        lemma_expand(b, w);
        lemma_absorb_lists_selects(b.expand(w), ef, score, rounds.last());
    }
}

/// The best of the expanded nodes are the best of the pool: where no scores
/// of the nodes that it saw tie, ranking the expanded nodes by the scores that
/// routed the search gives the head of the pool.
pub proof fn law_expanded_hold_the_best(
    entry: u32,
    k: nat,
    ef: nat,
    w: nat,
    score: spec_fn(u32) -> u32,
    rounds: Seq<Seq<Seq<u32>>>,
)
    requires
        0 < k <= ef,
        w > 0,
        distinct_on(score, Beam::seeded(entry, score(entry)).run(ef, w, score, rounds).visited),
        Beam::seeded(entry, score(entry)).run(ef, w, score, rounds).frontier(w).len() == 0,
    ensures
        ({
            let end = Beam::seeded(entry, score(entry)).run(ef, w, score, rounds);
            kept(end.expanded, k) == pairs_of(end.pool).take(
                if k < end.pool.len() { k as int } else { end.pool.len() as int },
            )
        }),
{
    let start = Beam::seeded(entry, score(entry));
    let end = start.run(ef, w, score, rounds);
    lemma_run(start, ef, w, score, rounds);
    lemma_run_selects(entry, ef, w, score, rounds);
    let all = pair_set(end.expanded);
    let seen = seen_pairs(end.visited, score);
    let s = pairs_of(end.pool);
    let m = if k < end.pool.len() { k as int } else { end.pool.len() as int };
    let t = s.take(m);
    assert forall|e: (u32, u32)| #[trigger] all.contains(e) implies seen.contains(e) by {
        let i = choose|i: int| 0 <= i < end.expanded.len() && end.expanded[i] == e;
        assert(end.visited.contains(end.expanded[i].1));
    }
    lemma_seen_tie_free(end.visited, score);
    assert(tie_free(all));
    lemma_distinct_pairs(end.expanded);
    lemma_kept_selects(end.expanded, k);
    lemma_pool_expanded(end, w, score);
    assert forall|i: int| 0 <= i < t.len() implies all.contains(#[trigger] t[i]) by {
        assert(t[i] == s[i]);
    }
    assert forall|e: (u32, u32)| #[trigger] all.contains(e) && !t.contains(e) implies t.len() == k && forall|i: int|
        0 <= i < t.len() ==> position(#[trigger] t[i].0) < position(e.0) by {
        assert(seen.contains(e));
        if s.contains(e) {
            let j = choose|j: int| 0 <= j < s.len() && s[j] == e;
            if j < m {
                assert(t[j] == e);
            }
            assert forall|i: int| 0 <= i < t.len() implies position(#[trigger] t[i].0) < position(e.0) by {
                assert(position(s[i].0) < position(s[j].0));
            }
        } else {
            assert forall|i: int| 0 <= i < t.len() implies position(#[trigger] t[i].0) < position(e.0) by {
                assert(position(s[i].0) < position(e.0));
            }
        }
    }
    assert(ascending(t)) by {
        assert forall|i: int, j: int| 0 <= i < j < t.len() implies position(#[trigger] t[i].0) < position(
            #[trigger] t[j].0,
        ) by {
            assert(position(s[i].0) < position(s[j].0));
        }
    }
    lemma_selects_unique(kept(end.expanded, k), t, k, all);
}

/// The head of a search's pool and the best of its expanded nodes are equally
/// far away, place by place, even where scores tie; only which of the nodes
/// that tie are named may differ.
pub proof fn law_expanded_are_as_close(
    entry: u32,
    k: nat,
    ef: nat,
    w: nat,
    score: spec_fn(u32) -> u32,
    rounds: Seq<Seq<Seq<u32>>>,
)
    requires
        0 < k <= ef,
        w > 0,
        numbers_on(score, Beam::seeded(entry, score(entry)).run(ef, w, score, rounds).visited),
        Beam::seeded(entry, score(entry)).run(ef, w, score, rounds).frontier(w).len() == 0,
    ensures
        ({
            let end = Beam::seeded(entry, score(entry)).run(ef, w, score, rounds);
            let best = kept(end.expanded, k);
            &&& best.len() == (if k < end.pool.len() { k } else { end.pool.len() })
            &&& forall|j: int|
                0 <= j < best.len() ==> position((#[trigger] best[j]).0) == position(end.pool[j].dist)
        }),
{
    let start = Beam::seeded(entry, score(entry));
    let end = start.run(ef, w, score, rounds);
    let all = end.expanded;
    let s = pairs_of(end.pool);
    lemma_seeded(entry, score(entry), score);
    lemma_run(start, ef, w, score, rounds);
    law_keeps_closest_seen(entry, ef, w, score, rounds);
    assert forall|i: int| 0 <= i < all.len() implies !is_nan(#[trigger] all[i].0) by {
        assert(end.visited.contains(all[i].1));
    }
    lemma_distinct_pairs(all);
    lemma_pool_expanded(end, w, score);
    lemma_distinct_pairs(s);
    assert forall|i: int, j: int| 0 <= i <= j < s.len() implies at_most(
        (#[trigger] s[i]).0,
        (#[trigger] s[j]).0,
    ) by {
        assert(at_most(end.pool[i].dist, end.pool[j].dist));
    }
    assert forall|e: (u32, u32)| #[trigger] all.contains(e) && !s.contains(e) implies s.len() >= k && forall|j: int|
        0 <= j < s.len() ==> at_most((#[trigger] s[j]).0, e.0) by {
        let a = choose|a: int| 0 <= a < all.len() && all[a] == e;
        assert(end.visited.contains(all[a].1));
        if in_pool(end.pool, e.1) {
            let c = choose|c: int| 0 <= c < end.pool.len() && (#[trigger] end.pool[c]).id == e.1;
            assert(s[c] == e);
        }
        assert forall|j: int| 0 <= j < s.len() implies at_most((#[trigger] s[j]).0, e.0) by {
            assert(at_most(end.pool[j].dist, score(e.1)));
        }
    }
    lemma_kept_as_close(all, s, k);
}

/// Pairs whose ids differ differ.
pub proof fn lemma_distinct_pairs(pairs: Seq<(u32, u32)>)
    requires
        forall|i: int, j: int| 0 <= i < j < pairs.len() ==> (#[trigger] pairs[i]).1 != (#[trigger] pairs[j]).1,
    ensures
        pairs.no_duplicates(),
{
    assert forall|i: int, j: int| 0 <= i < pairs.len() && 0 <= j < pairs.len() && i != j implies pairs[i]
        != pairs[j] by {
        if i < j {
            assert(pairs[i].1 != pairs[j].1);
        } else {
            assert(pairs[j].1 != pairs[i].1);
        }
    }
}

/// Where nothing is left to expand, the whole pool is expanded.
pub proof fn lemma_pool_expanded(b: Beam, w: nat, score: spec_fn(u32) -> u32)
    requires
        b.wf(),
        b.scored(score),
        w > 0,
        b.frontier(w).len() == 0,
    ensures
        forall|i: int| 0 <= i < b.pool.len() ==> b.expanded.contains(#[trigger] pairs_of(b.pool)[i]),
{
    lemma_picks(b.pool, b.pool.len(), w);
    assert forall|i: int| 0 <= i < b.pool.len() implies b.expanded.contains(#[trigger] pairs_of(b.pool)[i]) by {
        let c = b.pool[i];
        assert(c.expanded) by {
            if !c.expanded {
                assert(picks(b.pool, b.pool.len(), w).contains(i));
            }
        }
        assert(b.has_expanded(c.id));
        let j = choose|j: int| 0 <= j < b.expanded.len() && (#[trigger] b.expanded[j]).1 == c.id;
        assert(b.expanded[j] == (c.dist, c.id));
    }
}

/// What is picked comes before what is left.
proof fn lemma_picks_come_first(pool: Seq<Candidate>, n: nat, w: nat, a: int)
    requires
        n <= pool.len(),
        0 <= a < n,
        !pool[a].expanded,
        !picks(pool, n, w).contains(a),
    ensures
        picks(pool, n, w).len() == w,
        forall|i: int| 0 <= i < picks(pool, n, w).len() ==> #[trigger] picks(pool, n, w)[i] < a,
    decreases n,
{
    let before = picks(pool, (n - 1) as nat, w);
    let after = picks(pool, n, w);
    lemma_picks(pool, n, w);
    lemma_picks(pool, (n - 1) as nat, w);
    if a == n - 1 {
        if before.len() < w {
            assert(after[after.len() - 1] == a);
        }
    } else {
        if before.contains(a) {
            let k = choose|k: int| 0 <= k < before.len() && before[k] == a;
            assert(after[k] == a);
        }
        lemma_picks_come_first(pool, (n - 1) as nat, w, a);
    }
}

/// A round expands the candidates that stand first in the pool of those that
/// are not expanded yet, `w` of them, or all if there are no more; in the
/// order of the pool.
pub proof fn law_rounds_expand_the_first_unexpanded(b: Beam, w: nat)
    requires
        b.wf(),
    ensures
        ({
            let f = b.frontier(w);
            &&& f.len() <= w
            &&& forall|j: int| 0 <= j < f.len() ==> stands_unexpanded(b.pool, #[trigger] f[j])
            &&& forall|i: int, j: int, a: int, c: int|
                #![trigger f[i], f[j], b.pool[a], b.pool[c]]
                0 <= i < j < f.len() && 0 <= a < b.pool.len() && 0 <= c < b.pool.len() && b.pool[a].id == f[i]
                    && b.pool[c].id == f[j] ==> a < c
            &&& forall|a: int|
                #![trigger b.pool[a]]
                0 <= a < b.pool.len() && !b.pool[a].expanded && !f.contains(b.pool[a].id) ==> f.len() == w && forall|
                    c: int,
                |
                    #![trigger b.pool[c]]
                    0 <= c < b.pool.len() && f.contains(b.pool[c].id) ==> c < a
        }),
{
    let f = b.frontier(w);
    let at = b.chosen(w);
    lemma_picks(b.pool, b.pool.len(), w);
    assert forall|j: int| 0 <= j < f.len() implies stands_unexpanded(b.pool, #[trigger] f[j]) by {
        assert(b.pool[at[j]].id == f[j] && !b.pool[at[j]].expanded);
    }
    assert forall|i: int, a: int| 0 <= i < f.len() && 0 <= a < b.pool.len() && b.pool[a].id == f[i] implies a
        == #[trigger] at[i] && #[trigger] b.pool[a] == b.pool[a] by {
        if a < at[i] {
            assert(b.pool[a].id != b.pool[at[i]].id);
        } else if a > at[i] {
            assert(b.pool[at[i]].id != b.pool[a].id);
        }
    }
    assert forall|i: int, j: int, a: int, c: int|
        #![trigger f[i], f[j], b.pool[a], b.pool[c]]
        0 <= i < j < f.len() && 0 <= a < b.pool.len() && 0 <= c < b.pool.len() && b.pool[a].id == f[i]
            && b.pool[c].id == f[j] implies a < c by {
        assert(a == at[i] && c == at[j]);
    }
    assert forall|a: int|
        #![trigger b.pool[a]]
        0 <= a < b.pool.len() && !b.pool[a].expanded && !f.contains(b.pool[a].id) implies f.len() == w && forall|
        c: int,
    |
        #![trigger b.pool[c]]
        0 <= c < b.pool.len() && f.contains(b.pool[c].id) ==> c < a by {
        if at.contains(a) {
            let j = choose|j: int| 0 <= j < at.len() && at[j] == a;
            assert(f[j] == b.pool[a].id);
        }
        lemma_picks_come_first(b.pool, b.pool.len(), w, a);
        assert forall|c: int|
            #![trigger b.pool[c]]
            0 <= c < b.pool.len() && f.contains(b.pool[c].id) implies c < a by {
            let j = choose|j: int| 0 <= j < f.len() && f[j] == b.pool[c].id;
            assert(c == at[j]);
        }
    }
}

/// An unexpanded candidate of the pool has this id.
pub open spec fn stands_unexpanded(pool: Seq<Candidate>, id: u32) -> bool {
    exists|a: int| 0 <= a < pool.len() && (#[trigger] pool[a]).id == id && !pool[a].expanded
}

/// Expanding marks the candidates of the round, and lists them behind those
/// that were expanded before, with their distances; it changes nothing else.
pub proof fn law_expanding_marks_and_lists(b: Beam, w: nat)
    requires
        b.wf(),
    ensures
        ({
            let e = b.expand(w);
            let f = b.frontier(w);
            &&& e.visited == b.visited
            &&& e.pool.len() == b.pool.len()
            &&& forall|i: int|
                0 <= i < b.pool.len() ==> (#[trigger] e.pool[i]).id == b.pool[i].id && e.pool[i].dist == b.pool[i].dist
                    && (e.pool[i].expanded <==> b.pool[i].expanded || f.contains(b.pool[i].id))
            &&& e.expanded.len() == b.expanded.len() + f.len()
            &&& forall|i: int| 0 <= i < b.expanded.len() ==> #[trigger] e.expanded[i] == b.expanded[i]
            &&& forall|j: int|
                0 <= j < f.len() ==> (#[trigger] e.expanded[b.expanded.len() + j]).1 == f[j] && pairs_of(
                    b.pool,
                ).contains(e.expanded[b.expanded.len() + j])
        }),
{
    let e = b.expand(w);
    let f = b.frontier(w);
    let at = b.chosen(w);
    lemma_picks(b.pool, b.pool.len(), w);
    assert forall|i: int| 0 <= i < b.pool.len() implies (#[trigger] e.pool[i]).id == b.pool[i].id && e.pool[i].dist
        == b.pool[i].dist && (e.pool[i].expanded <==> b.pool[i].expanded || f.contains(b.pool[i].id)) by {
        if at.contains(i) {
            let j = choose|j: int| 0 <= j < at.len() && at[j] == i;
            assert(f[j] == b.pool[i].id);
        } else if f.contains(b.pool[i].id) {
            let j = choose|j: int| 0 <= j < f.len() && f[j] == b.pool[i].id;
            if at[j] < i {
                assert(b.pool[at[j]].id != b.pool[i].id);
            } else if at[j] > i {
                assert(b.pool[i].id != b.pool[at[j]].id);
            }
            assert(at.contains(i));
        }
    }
    assert forall|j: int| 0 <= j < f.len() implies (#[trigger] e.expanded[b.expanded.len() + j]).1 == f[j] && pairs_of(
        b.pool,
    ).contains(e.expanded[b.expanded.len() + j]) by {
        assert(pairs_of(b.pool)[at[j]] == e.expanded[b.expanded.len() + j]);
    }
}

/// `out` is the pool with a fresh candidate behind those that are no further
/// away, cut to `ef`.
pub open spec fn takes_its_place(pool: Seq<Candidate>, ef: nat, d: u32, id: u32, out: Seq<Candidate>) -> bool {
    exists|at: int|
        0 <= at <= pool.len() && (forall|i: int| 0 <= i < at ==> position((#[trigger] pool[i]).dist) <= position(d))
            && (forall|i: int| at <= i < pool.len() ==> position(d) < position((#[trigger] pool[i]).dist)) && out == (
        #[trigger] pool.insert(at, Candidate { dist: d, id, expanded: false })).take(
            if pool.len() < ef { pool.len() as int + 1 } else { ef as int },
        )
}

/// A node that was seen before changes nothing. A new one takes its place in
/// the pool, behind those that are no further away, and if the pool is then
/// too large, its last candidate is gone. That is so for either way in which
/// neighbors come in.
pub proof fn law_new_candidates_take_their_places(b: Beam, ef: nat, score: spec_fn(u32) -> u32, nb: u32)
    requires
        b.pool.len() <= ef,
        ef > 0,
        pool_sorted(b.pool),
        !is_nan(score(nb)),
    ensures
        b.visited.contains(nb) ==> b.absorb(ef, score, nb) == b && b.welcome(ef, score, nb) == b,
        !b.visited.contains(nb) ==> {
            let a = b.absorb(ef, score, nb);
            &&& a == b.welcome(ef, score, nb)
            &&& a.visited == b.visited.insert(nb)
            &&& a.expanded == b.expanded
            &&& takes_its_place(b.pool, ef, score(nb), nb, a.pool)
        },
{
    let d = score(nb);
    if !b.visited.contains(nb) {
        let a = b.absorb(ef, score, nb);
        let at = slot(b.pool, d);
        let fresh = Candidate { dist: d, id: nb, expanded: false };
        lemma_squeezed(b.pool, ef, d, nb);
        lemma_bisect_sorted(b.pool, d, 0, b.pool.len() as int);
        if b.pool.len() > 0 {
            let last = b.pool[b.pool.len() - 1];
            assert(at_most(last.dist, last.dist));
        }
        let m = if b.pool.len() < ef { b.pool.len() as int + 1 } else { ef as int };
        if b.pool.len() < ef || precedes(d, b.pool.last().dist) {
            assert(a.pool =~= b.pool.insert(at, fresh).take(m));
        } else {
            assert forall|i: int| 0 <= i < b.pool.len() implies at_most((#[trigger] b.pool[i]).dist, d) by {
                assert(at_most(b.pool[i].dist, b.pool[b.pool.len() - 1].dist));
            }
            assert(at == b.pool.len()) by {
                if at < b.pool.len() {
                    assert(precedes(d, b.pool[at].dist));
                }
            }
            assert(a.pool =~= b.pool.insert(at, fresh).take(m));
        }
        assert forall|i: int| 0 <= i < at implies position((#[trigger] b.pool[i]).dist) <= position(d) by {
            assert(at_most(b.pool[i].dist, d));
        }
        assert forall|i: int| at <= i < b.pool.len() implies position(d) < position((#[trigger] b.pool[i]).dist) by {
            assert(precedes(d, b.pool[i].dist));
        }
        assert(a.pool == b.pool.insert(at, fresh).take(m));
    }
}

/// A new node whose distance is no number goes to the front of the pool while
/// there is room. In a full pool it finds no place if it is absorbed; if it is
/// welcomed, it goes to the front, and the last candidate is gone.
pub proof fn law_nan_candidates_go_to_the_front(b: Beam, ef: nat, score: spec_fn(u32) -> u32, nb: u32)
    requires
        b.pool.len() <= ef,
        ef > 0,
        !b.visited.contains(nb),
        is_nan(score(nb)),
    ensures
        ({
            let grown = b.pool.insert(0, Candidate { dist: score(nb), id: nb, expanded: false });
            &&& b.pool.len() < ef ==> b.absorb(ef, score, nb).pool == grown && b.welcome(ef, score, nb).pool == grown
            &&& b.pool.len() == ef ==> b.absorb(ef, score, nb).pool == b.pool && b.welcome(ef, score, nb).pool
                == grown.drop_last()
        }),
{
    lemma_bisect_nan(b.pool, score(nb), 0, b.pool.len() as int);
}

proof fn lemma_bisect_nan(pool: Seq<Candidate>, d: u32, lo: int, hi: int)
    requires
        is_nan(d),
        lo <= hi,
    ensures
        bisect(pool, d, lo, hi) == lo,
    decreases hi - lo,
{
    if lo < hi {
        lemma_bisect_nan(pool, d, lo, lo + (hi - lo) / 2);
    }
}

/// Neighbors come in one after the other, list by list.
pub proof fn law_neighbors_come_in_order(
    b: Beam,
    ef: nat,
    score: spec_fn(u32) -> u32,
    nbs: Seq<u32>,
    nb: u32,
    lists: Seq<Seq<u32>>,
)
    ensures
        b.absorb_all(ef, score, Seq::empty()) == b,
        b.absorb_all(ef, score, nbs.push(nb)) == b.absorb_all(ef, score, nbs).absorb(ef, score, nb),
        b.absorb_lists(ef, score, lists) == b.absorb_all(ef, score, lists.flatten()),
        b.welcome_all(ef, score, Seq::empty()) == b,
        b.welcome_all(ef, score, nbs.push(nb)) == b.welcome_all(ef, score, nbs).welcome(ef, score, nb),
{
    assert(nbs.push(nb).drop_last() =~= nbs);
    lemma_absorb_flatten(b, ef, score, lists);
}

/// A search goes round by round: as long as something is left to expand, it
/// expands the frontier, asks for the neighbors of each of its nodes, in
/// order, and takes them in.
pub proof fn law_search_goes_round_by_round(
    entry: u32,
    ef: nat,
    w: nat,
    score: spec_fn(u32) -> u32,
    rounds: Seq<Seq<Seq<u32>>>,
    answer: spec_fn(u32, Seq<u32>) -> bool,
    j: int,
)
    requires
        ef > 0,
        Beam::seeded(entry, score(entry)).trace(ef, w, score, rounds, answer),
        0 <= j < rounds.len(),
    ensures
        ({
            let start = Beam::seeded(entry, score(entry));
            let b = start.run(ef, w, score, rounds.take(j));
            let next = start.run(ef, w, score, rounds.take(j + 1));
            let f = b.frontier(w);
            &&& start.run(ef, w, score, rounds.take(0)) == start
            &&& f.len() > 0
            &&& rounds[j].len() == f.len()
            &&& forall|i: int| 0 <= i < f.len() ==> answer(#[trigger] f[i], rounds[j][i])
            &&& next == b.expand(w).absorb_all(ef, score, rounds[j].flatten())
            &&& forall|id: u32| #[trigger]
                next.visited.contains(id) <==> b.visited.contains(id) || exists|i: int|
                    0 <= i < f.len() && (#[trigger] rounds[j][i]).contains(id)
        }),
{
    let start = Beam::seeded(entry, score(entry));
    let b = start.run(ef, w, score, rounds.take(j));
    let lists = rounds[j];
    lemma_seeded(entry, score(entry), score);
    lemma_run(start, ef, w, score, rounds.take(j));
    lemma_trace_prefix(start, ef, w, score, rounds, answer, j);
    assert(rounds.take(j + 1).drop_last() =~= rounds.take(j));
    assert(rounds.take(j + 1).last() == lists);
    assert(b.answered(w, lists, answer));
    let f = b.frontier(w);
    assert forall|i: int| 0 <= i < f.len() implies answer(#[trigger] f[i], rounds[j][i]) by {
        assert(answer(b.frontier(w)[i], lists[i]));
    }
    lemma_round(b, ef, w, score, lists);
    lemma_absorb_flatten(b.expand(w), ef, score, lists);
    assert(rounds.take(0) =~= Seq::empty());
    let next = start.run(ef, w, score, rounds.take(j + 1));
    assert forall|id: u32| #[trigger] next.visited.contains(id) <==> b.visited.contains(id) || exists|i: int|
        0 <= i < f.len() && (#[trigger] rounds[j][i]).contains(id) by {
        assert(next.visited == b.visited.union(lists_set(lists)));
    }
}

/// A search starts with its entry point, not expanded yet, and ends when every
/// candidate of its pool is expanded.
pub proof fn law_search_ends_when_all_is_expanded(
    entry: u32,
    ef: nat,
    w: nat,
    score: spec_fn(u32) -> u32,
    rounds: Seq<Seq<Seq<u32>>>,
    answer: spec_fn(u32, Seq<u32>) -> bool,
    end: Beam,
)
    requires
        ef > 0,
        w > 0,
        Beam::seeded(entry, score(entry)).settles(ef, w, score, rounds, answer, end),
    ensures
        ({
            let start = Beam::seeded(entry, score(entry));
            &&& start.pool == seq![Candidate { dist: score(entry), id: entry, expanded: false }]
            &&& start.expanded.len() == 0
            &&& forall|id: u32| #[trigger] start.visited.contains(id) <==> id == entry
            &&& end == start.run(ef, w, score, rounds)
            &&& start.trace(ef, w, score, rounds, answer)
            &&& end.pool.len() <= ef
            &&& forall|i: int|
                0 <= i < end.pool.len() ==> (#[trigger] end.pool[i]).expanded && end.expanded.contains(
                    (end.pool[i].dist, end.pool[i].id),
                ) && end.pool[i].dist == score(end.pool[i].id)
        }),
{
    let start = Beam::seeded(entry, score(entry));
    lemma_seeded(entry, score(entry), score);
    lemma_run(start, ef, w, score, rounds);
    lemma_pool_expanded(end, w, score);
    lemma_picks(end.pool, end.pool.len(), w);
    assert forall|i: int| 0 <= i < end.pool.len() implies (#[trigger] end.pool[i]).expanded && end.expanded.contains(
        (end.pool[i].dist, end.pool[i].id),
    ) && end.pool[i].dist == score(end.pool[i].id) by {
        assert(end.expanded.contains(pairs_of(end.pool)[i]));
        if !end.pool[i].expanded {
            assert(end.chosen(w).contains(i));
        }
    }
}

/// The pairs of a pool are its distances and ids, in order.
pub proof fn law_results_are_the_pool(pool: Seq<Candidate>, i: int)
    ensures
        pairs_of(pool).len() == pool.len(),
        0 <= i < pool.len() ==> pairs_of(pool)[i] == (pool[i].dist, pool[i].id),
{
}

/// A search goes by what its neighbor function returns, in full.
pub proof fn law_answers_are_what_is_returned<N: Fn(u32) -> Vec<u32>>(neighbors: N, id: u32, list: Seq<u32>)
    ensures
        answered_by(neighbors)(id, list) <==> exists|v: Vec<u32>|
            v@ == list && #[trigger] call_ensures(neighbors, (id,), v),
{
}

} // verus!
