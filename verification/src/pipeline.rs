//! Cross-query pipelined search.
//!
//! One scheduler drives up to `concurrency` query state machines over a
//! single deep queue of block reads. Each query keeps the round semantics of
//! the batched search (expand its `w` best unexpanded candidates, wait for
//! its own reads, integrate, repeat), but *different* queries overlap freely,
//! so the device queue stays about `concurrency * w` deep instead of draining
//! to zero between every round.
//!
//! A finished query immediately hands its state slot to the next pending
//! query, so the pipeline never breathes out.
//!
//! The scheduler decides; it does no I/O. [`Pipeline::advance`] says which
//! blocks to read next, and [`Pipeline::complete`] takes each block that
//! landed, in whatever order they land.

use std::collections::HashSet;

use vstd::prelude::*;

use crate::beam::{in_range, lemma_expand, lemma_expanded_bound, lemma_welcome_all, welcomed, Beam, Candidate};
use crate::bits::less_eq;
use crate::dataset::FloatVectors;
use crate::disk::{all_below, lists_of, measures, reranked, Fetch};
use crate::io::BLOCK_SIZE;
use crate::layout::{decode_vector, parse_neighbors, DiskIndexMeta};
use crate::schedule::{
    lemma_course_reads, lemma_fresh_slot, lemma_frontier_distinct, lemma_integrate, lemma_issue, lemma_open_count_start,
    lemma_open_count_update, lemma_open_count_zero, lemma_opened, lemma_schedule_receive, lemma_slot_beam,
    lemma_start_expands, lemma_turn, neighbors_in, open_count, tagged, Schedule, Setting, Slot,
};
use crate::scorer::{covers_all, scores, RouteScorer};
use crate::search::{lemma_expand_nothing, squeeze_in, take_frontier};
use crate::topk::{kept, TopK};

verus! {

/// How a pipeline runs.
pub struct PipelineParams {
    pub k: usize,
    pub ef: usize,
    /// Beam width per query per round.
    pub w: usize,
    /// Query state machines in flight at once.
    pub concurrency: usize,
}

/// What a slot has done that its query needs no more.
pub struct Trail {
    pub expanded: Seq<(u32, u32)>,
    pub log: Seq<Seq<Fetch>>,
    pub arrived: Seq<Fetch>,
    pub waiting: Set<u32>,
}

/// The state machine of one query.
struct QState {
    qi: usize,
    /// Routing pool, ordered by (possibly approximate) scorer distances.
    pool: Vec<Candidate>,
    /// Exact-scored expanded nodes (rerank from block vectors): the returned
    /// top-k comes from here, never from approximate scores.
    exact: TopK,
    visited: HashSet<u32>,
    /// Neighbor ids parsed out of this round's completed block reads.
    pending_nb: Vec<u32>,
    in_flight: usize,
    reads: usize,
    active: bool,
    trail: Ghost<Trail>,
}

impl QState {
    spec fn slot(&self) -> Slot {
        Slot {
            qi: self.qi as int,
            active: self.active,
            beam: Beam { pool: self.pool@, visited: self.visited@, expanded: self.trail@.expanded },
            log: self.trail@.log,
            arrived: self.trail@.arrived,
            waiting: self.trail@.waiting,
        }
    }

    /// What is counted and collected fits what was done.
    spec fn wf(&self, k: nat, meta: DiskIndexMeta) -> bool {
        self.active ==> {
            &&& self.exact.wf()
            &&& self.exact.capacity() == k
            &&& self.exact@ == kept(reranked(self.trail@.log.flatten() + self.trail@.arrived), k)
            &&& self.pending_nb@ == neighbors_in(meta, self.trail@.arrived)
            &&& self.trail@.waiting.finite()
            &&& self.in_flight == self.trail@.waiting.len()
            &&& self.reads == self.trail@.expanded.len()
        }
    }

    /// A state machine that takes up query `qi`.
    fn seed<S: RouteScorer>(
        qi: usize,
        k: usize,
        meta: &DiskIndexMeta,
        scorer: &S,
        queries: &FloatVectors,
        Ghost(set): Ghost<Setting>,
    ) -> (s: Self)
        requires
            queries.wf(),
            qi < queries.count,
            k > 0,
            set.k == k,
            set.meta == *meta,
            set.score == query_scores(scorer, queries),
            scorer.covers(queries.row(qi as int), meta.medoid),
        ensures
            s.wf(set.k, set.meta),
            s.slot() == Slot::fresh(set, qi as int),
    {
        broadcast use vstd::std_specs::hash::group_hash_axioms;

        let entry: u32 = meta.medoid;
        let mut visited: HashSet<u32> = HashSet::new();
        visited.insert(entry);
        let dist: u32 = scorer.score(queries.get(qi), entry);
        let mut pool: Vec<Candidate> = Vec::new();
        pool.push(Candidate { dist, id: entry, expanded: false });
        let s = QState {
            qi,
            pool,
            exact: TopK::new(k),
            visited,
            pending_nb: Vec::new(),
            in_flight: 0,
            reads: 0,
            active: true,
            trail: Ghost(
                Trail { expanded: Seq::empty(), log: Seq::empty(), arrived: Seq::empty(), waiting: Set::empty() },
            ),
        };
        proof {
            assert(s.slot() =~= Slot::fresh(set, qi as int));
            assert(reranked(s.trail@.log.flatten() + s.trail@.arrived) =~= Seq::empty());
            assert(lists_of(set.meta, s.trail@.arrived) =~= Seq::empty());
        }
        s
    }

    /// Takes in the neighbors of the finished round.
    fn integrate<S: RouteScorer>(&mut self, ef: usize, scorer: &S, query: &[u32], Ghost(set): Ghost<Setting>)
        requires
            set.wf(),
            old(self).wf(set.k, set.meta),
            old(self).slot().idle(),
            old(self).slot().sound(set),
            ef == set.ef,
            (set.score)(old(self).qi as int) == scores(scorer, query@),
            covers_all(scorer, query@, set.points),
        ensures
            final(self).wf(set.k, set.meta),
            final(self).slot() == old(self).slot().integrate(set),
    {
        broadcast use vstd::std_specs::hash::group_hash_axioms;

        let ghost before = self.slot();
        let ghost start = before.beam;
        let ghost score = scores(scorer, query@);
        let ghost n = set.points;
        let ghost nbs = self.pending_nb@;
        proof {
            lemma_slot_beam(before, set);
            assert(nbs.take(0) =~= Seq::empty());
            assert(in_range(nbs, n)) by {
                if before.arrived.len() == 0 {
                    assert(lists_of(set.meta, before.arrived) =~= Seq::empty());
                }
            }
        }
        let mut i: usize = 0;
        while i < self.pending_nb.len()
            invariant
                ef > 0,
                ef == set.ef,
                i <= nbs.len(),
                n == set.points,
                self.pending_nb@ == nbs,
                in_range(nbs, n),
                start.wf(),
                start.scored(score),
                start.pool.len() <= ef,
                start.below(n),
                score == scores(scorer, query@),
                covers_all(scorer, query@, n),
                self.qi == old(self).qi,
                self.active == old(self).active,
                self.exact == old(self).exact,
                self.in_flight == old(self).in_flight,
                self.reads == old(self).reads,
                self.trail == old(self).trail,
                self.slot().beam == start.welcome_all(ef as nat, score, nbs.take(i as int)),
            decreases nbs.len() - i,
        {
            broadcast use vstd::std_specs::hash::group_hash_axioms;

            let nb: u32 = self.pending_nb[i];
            let ghost b = self.slot().beam;
            proof {
                let next = nbs.take(i + 1);
                assert(next.drop_last() =~= nbs.take(i as int));
                assert(next.last() == nb);
                assert(nbs[i as int] < n);
                assert forall|j: int| 0 <= j < nbs.take(i as int).len() implies #[trigger] nbs.take(i as int)[j]
                    < n by {
                    assert(nbs[j] < n);
                }
                lemma_welcome_all(start, ef as nat, score, nbs.take(i as int), n);
            }
            if self.visited.insert(nb) {
                let d: u32 = scorer.score(query, nb);
                pool_insert(&mut self.pool, ef, d, nb);
            } else {
                assert(b.visited.insert(nb) =~= b.visited);
            }
            assert(self.slot().beam =~= b.welcome(ef as nat, score, nb));
            i += 1;
        }
        assert(nbs.take(i as int) =~= nbs);
        self.pending_nb.clear();
        proof {
            if before.arrived.len() == 0 {
                assert(lists_of(set.meta, before.arrived) =~= Seq::empty());
                assert(nbs =~= Seq::empty());
                assert(self.slot() =~= before);
            } else {
                let t = self.trail@;
                let log = t.log.push(t.arrived);
                t.log.lemma_flatten_push(t.arrived);
                assert(log.flatten() + Seq::<Fetch>::empty() =~= t.log.flatten() + t.arrived);
                assert(lists_of(set.meta, Seq::<Fetch>::empty()) =~= Seq::empty());
                self.trail@ = Trail { log, arrived: Seq::empty(), ..t };
                assert(self.slot() =~= before.integrate(set));
            }
        }
    }

    /// Starts the next round, and returns the nodes to read.
    fn issue(&mut self, w: usize, Ghost(set): Ghost<Setting>) -> (frontier: Vec<(u32, u32)>)
        requires
            set.wf(),
            set.points <= usize::MAX,
            old(self).wf(set.k, set.meta),
            old(self).slot().idle(),
            old(self).slot().sound(set),
            old(self).slot().arrived.len() == 0,
            w == set.w,
        ensures
            frontier@.len() == old(self).slot().beam.frontier(set.w).len(),
            forall|i: int|
                0 <= i < frontier@.len() ==> (#[trigger] frontier@[i]).1 == old(self).slot().beam.frontier(set.w)[i],
            frontier@.len() > 0 ==> final(self).wf(set.k, set.meta) && final(self).slot() == old(self).slot().issue(set),
            frontier@.len() == 0 ==> final(self).wf(set.k, set.meta) && final(self).slot() == old(self).slot(),
    {
        let ghost before = self.slot();
        let ghost b = before.beam;
        proof {
            lemma_slot_beam(before, set);
            lemma_expand(b, w as nat);
            lemma_expanded_bound(b.expand(w as nat), set.points);
            lemma_frontier_distinct(b, w as nat);
        }
        let frontier = take_frontier(&mut self.pool, w);
        if frontier.len() == 0 {
            proof {
                lemma_expand_nothing(b, w as nat);
                assert(self.slot() =~= before);
            }
            return frontier;
        }
        self.in_flight = frontier.len();
        self.reads += frontier.len();
        proof {
            lemma_issue(before, set);
            let t = self.trail@;
            self.trail@ = Trail { expanded: t.expanded + frontier@, waiting: b.frontier(w as nat).to_set(), ..t };
            assert(self.slot().beam =~= b.expand(w as nat));
            assert(self.slot() =~= before.issue(set));
        }
        frontier
    }
}

impl QState {
    /// Takes in a block that landed.
    fn land(&mut self, d: u32, node: u32, list: &Vec<u32>, Ghost(f): Ghost<Fetch>, Ghost(run): Ghost<Run>)
        requires
            old(self).active,
            old(self).wf(run.k, run.meta),
            old(self).slot().waiting.contains(node),
            f.node == node,
            f.dist == d,
            list@ == run.meta.list_in(f.block, node),
        ensures
            final(self).wf(run.k, run.meta),
            final(self).slot() == old(self).slot().receive(f),
    {
        let ghost before = self.slot();
        let ghost t = self.trail@;
        self.exact.push(d, node);
        self.pending_nb.extend_from_slice(list.as_slice());
        self.in_flight -= 1;
        proof {
            let arrived = t.arrived.push(f);
            self.trail@ = Trail { arrived, waiting: t.waiting.remove(node), ..t };
            assert(lists_of(run.meta, arrived) =~= lists_of(run.meta, t.arrived).push(list@));
            lists_of(run.meta, t.arrived).lemma_flatten_push(list@);
            assert(self.pending_nb@ =~= neighbors_in(run.meta, arrived));
            let items = reranked(t.log.flatten() + arrived);
            assert(items.drop_last() =~= reranked(t.log.flatten() + t.arrived));
            assert(items.last() == (d, node));
            assert(self.slot() =~= before.receive(f));
        }
    }
}

/// Puts a node into the pool, unless the pool is full and its last candidate
/// is at most as far away.
fn pool_insert(pool: &mut Vec<Candidate>, ef: usize, dist: u32, id: u32)
    requires
        old(pool)@.len() <= ef,
        ef > 0,
    ensures
        final(pool)@ == welcomed(old(pool)@, ef as nat, dist, id),
{
    if pool.len() >= ef && less_eq(pool[pool.len() - 1].dist, dist) {
        return;
    }
    squeeze_in(pool, ef, dist, id);
}

/// How each query scores the nodes.
pub open spec fn query_scores<S: RouteScorer>(scorer: &S, queries: &FloatVectors) -> spec_fn(int) -> spec_fn(
    u32,
) -> u32 {
    |q: int| scores(scorer, queries.row(q))
}

/// The parameters of a run.
pub struct Run {
    pub meta: DiskIndexMeta,
    pub k: nat,
    pub ef: nat,
    pub w: nat,
    /// How many points can be scored.
    pub points: nat,
}

impl Run {
    /// What the run is about, for these scores and queries.
    pub open spec fn setting<S: RouteScorer>(self, scorer: &S, queries: &FloatVectors) -> Setting {
        Setting {
            meta: self.meta,
            k: self.k,
            ef: self.ef,
            w: self.w,
            points: self.points,
            queries: queries.count as nat,
            score: query_scores(scorer, queries),
        }
    }
}

/// A run with these parameters.
pub open spec fn run_of<S: RouteScorer>(meta: DiskIndexMeta, scorer: &S, params: PipelineParams) -> Run {
    Run { meta, k: params.k as nat, ef: params.ef as nat, w: params.w as nat, points: scorer.points() }
}

/// How many queries are in flight at once: as many as asked for, but at least
/// one, no more than there are, and no more than a tag can tell apart.
pub open spec fn slot_count(concurrency: nat, queries: nat) -> nat {
    let wanted = if concurrency < 1 { 1 } else { concurrency };
    let useful = if wanted < queries { wanted } else { queries };
    if useful < 65535 { useful } else { 65535 }
}

/// The result of a query: its top-k, and how many blocks were read for it.
pub open spec fn outcome(k: nat, log: Seq<Seq<Fetch>>) -> (Seq<(u32, u32)>, nat) {
    (kept(reranked(log.flatten()), k), log.flatten().len())
}

/// The scheduler.
pub struct Pipeline {
    meta: DiskIndexMeta,
    k: usize,
    ef: usize,
    w: usize,
    points: usize,
    states: Vec<QState>,
    next_q: usize,
    remaining: usize,
    results: Vec<(Vec<(u32, u32)>, usize)>,
    finished: Ghost<Seq<Option<Seq<Seq<Fetch>>>>>,
}

impl View for Pipeline {
    type V = Schedule;

    closed spec fn view(&self) -> Schedule {
        Schedule {
            slots: Seq::new(self.states@.len(), |i: int| self.states@[i].slot()),
            next: self.next_q as int,
            finished: self.finished@,
        }
    }
}

impl Pipeline {
    /// The parameters of the run.
    pub closed spec fn run(&self) -> Run {
        Run {
            meta: self.meta,
            k: self.k as nat,
            ef: self.ef as nat,
            w: self.w as nat,
            points: self.points as nat,
        }
    }

    /// What is counted and collected fits what was done.
    pub closed spec fn wf(&self) -> bool {
        &&& self.states@.len() <= 65535
        &&& forall|i: int| 0 <= i < self.states@.len() ==> (#[trigger] self.states@[i]).wf(self.k as nat, self.meta)
        &&& self.remaining == open_count(self.finished@)
        &&& self.results@.len() == self.finished@.len()
        &&& forall|q: int|
            0 <= q < self.results@.len() && (#[trigger] self.finished@[q]) is Some ==> self.results@[q].0@ == outcome(
                self.k as nat,
                self.finished@[q]->Some_0,
            ).0 && self.results@[q].1 == outcome(self.k as nat, self.finished@[q]->Some_0).1
    }

    /// Takes up the first queries. Where there are none, nothing is asked of
    /// the index and the parameters.
    pub fn start<S: RouteScorer>(
        meta: &DiskIndexMeta,
        scorer: &S,
        queries: &FloatVectors,
        params: &PipelineParams,
    ) -> (p: Self)
        requires
            queries.wf(),
            queries.count > 0 ==> {
                &&& meta.wf()
                &&& meta.medoid < scorer.points()
                &&& params.w >= 1
                &&& params.k > 0
                &&& params.ef >= params.k
            },
            forall|q: int| 0 <= q < queries.count ==> scorer.covers(#[trigger] queries.row(q), meta.medoid),
        ensures
            p.run() == run_of(*meta, scorer, *params),
            p.wf(),
            p@.sound(p.run().setting(scorer, queries)),
            p@ == Schedule::opened(
                p.run().setting(scorer, queries),
                slot_count(params.concurrency as nat, queries.count as nat),
            ),
    {
        let ghost run = run_of(*meta, scorer, *params);
        let ghost set = run.setting(scorer, queries);
        let nq: usize = queries.count;
        let wanted: usize = if params.concurrency < 1 { 1 } else { params.concurrency };
        let useful: usize = if wanted < nq { wanted } else { nq };
        let concurrency: usize = if useful < 65535 { useful } else { 65535 };
        let mut results: Vec<(Vec<(u32, u32)>, usize)> = Vec::new();
        let mut q: usize = 0;
        while q < nq
            invariant
                q <= nq,
                results@.len() == q,
            decreases nq - q,
        {
            results.push((Vec::new(), 0));
            q += 1;
        }
        let mut states: Vec<QState> = Vec::new();
        let mut next_q: usize = 0;
        while next_q < concurrency
            invariant
                next_q <= concurrency <= nq,
                nq == queries.count,
                states@.len() == next_q,
                queries.wf(),
                nq > 0 ==> params.k > 0,
                run == run_of(*meta, scorer, *params),
                set == run.setting(scorer, queries),
                forall|q: int| 0 <= q < queries.count ==> scorer.covers(#[trigger] queries.row(q), meta.medoid),
                forall|i: int|
                    0 <= i < next_q ==> (#[trigger] states@[i]).wf(set.k, set.meta) && states@[i].slot() == Slot::fresh(set, i),
            decreases concurrency - next_q,
        {
            assert(scorer.covers(queries.row(next_q as int), meta.medoid));
            let s = QState::seed(next_q, params.k, meta, scorer, queries, Ghost(set));
            states.push(s);
            next_q += 1;
        }
        let p = Pipeline {
            meta: *meta,
            k: params.k,
            ef: params.ef,
            w: params.w,
            points: scorer.num_points(),
            states,
            next_q,
            remaining: nq,
            results,
            finished: Ghost(Seq::new(nq as nat, |q: int| None)),
        };
        proof {
            assert(p@.slots =~= Schedule::opened(set, concurrency as nat).slots);
            assert(p@ =~= Schedule::opened(set, concurrency as nat));
            lemma_opened(set, concurrency as nat);
            lemma_open_count_start(nq as nat);
            assert(p.finished@ =~= Seq::new(nq as nat, |q: int| None::<Seq<Seq<Fetch>>>));
        }
        p
    }

    /// Whether every query has its result.
    pub fn is_done(&self) -> (b: bool)
        requires
            self.wf(),
        ensures
            b == (open_count(self@.finished) == 0),
    {
        self.remaining == 0
    }

    /// Gives one slot its turn, and appends the reads that it asks for.
    fn turn<S: RouteScorer>(
        &mut self,
        sid: usize,
        scorer: &S,
        queries: &FloatVectors,
        requests: &mut Vec<(u64, u64)>,
        Ghost(set): Ghost<Setting>,
    )
        requires
            set.wf(),
            set == old(self).run().setting(scorer, queries),
            queries.wf(),
            forall|q: int| 0 <= q < queries.count ==> covers_all(scorer, #[trigger] queries.row(q), set.points),
            old(self).wf(),
            old(self)@.sound(set),
            sid < old(self)@.slots.len(),
        ensures
            final(self).run() == old(self).run(),
            final(self).wf(),
            final(self)@ == old(self)@.turn(set, sid as int),
            final(requests)@ == old(requests)@ + tagged(set.meta, sid as int, old(self)@.asks(set, sid as int)),
    {
        let ghost before = self@;
        let ghost s = before.slots[sid as int];
        let ghost asks = before.asks(set, sid as int);
        assert(self.states@[sid as int].wf(set.k, set.meta));
        proof {
            if s.active {
                assert(s.sound(set));
            }
        }
        if !self.states[sid].active || self.states[sid].in_flight > 0 {
            proof {
                if s.active {
                    assert(self.states@[sid as int].trail@.waiting.len() > 0);
                    assert(s.waiting != Set::<u32>::empty());
                }
                assert(!s.idle());
                assert(requests@ =~= old(requests)@ + tagged(set.meta, sid as int, asks));
            }
            return;
        }
        assert(s.idle()) by {
            assert(s.waiting.len() == 0);
            assert(s.waiting =~= Set::empty());
        }
        let qi: usize = self.states[sid].qi;
        let query = queries.get(qi);
        assert(covers_all(scorer, queries.row(qi as int), set.points));
        let ghost t = s.integrate(set);
        proof {
            lemma_integrate(s, set);
        }
        self.states[sid].integrate(self.ef, scorer, query, Ghost(set));
        let frontier = self.states[sid].issue(self.w, Ghost(set));
        if frontier.len() > 0 {
            push_requests(requests, &self.meta, sid, &frontier, Ghost(t.beam.frontier(set.w)));
            proof {
                assert(self@.slots =~= before.slots.update(sid as int, t.issue(set)));
                assert(self@ =~= before.turn(set, sid as int));
            }
            return;
        }
        // The query is done.
        proof {
            assert(set.follows(s.qi, t.log));
            lemma_course_reads(set, s.qi, t.log);
            lemma_open_count_update(before.finished, s.qi, t.log);
        }
        let reads: usize = self.states[sid].reads;
        let mut exact = TopK::new(self.k);
        core::mem::swap(&mut exact, &mut self.states[sid].exact);
        let ghost log = t.log;
        assert(log.flatten() + Seq::<Fetch>::empty() =~= log.flatten());
        let top = exact.into_sorted();
        assert(top@ == outcome(self.k as nat, log).0);
        assert(reads == outcome(self.k as nat, log).1);
        self.results.set(qi, (top, reads));
        self.remaining -= 1;
        proof {
            self.finished@ = self.finished@.update(qi as int, Some(log));
        }
        if self.next_q < queries.count {
            let q: usize = self.next_q;
            assert(covers_all(scorer, queries.row(q as int), set.points));
            let mut fresh = QState::seed(q, self.k, &self.meta, scorer, queries, Ghost(set));
            proof {
                lemma_fresh_slot(set, q as int);
                lemma_start_expands(set, q as int);
            }
            let frontier = fresh.issue(self.w, Ghost(set));
            self.states.set(sid, fresh);
            self.next_q += 1;
            push_requests(requests, &self.meta, sid, &frontier, Ghost(set.start(q as int).frontier(set.w)));
            proof {
                assert(self@.slots =~= before.slots.update(sid as int, Slot::fresh(set, q as int).issue(set)));
                assert(self@ =~= before.turn(set, sid as int));
            }
        } else {
            self.states[sid].active = false;
            proof {
                assert(requests@ =~= old(requests)@ + tagged(set.meta, sid as int, asks));
                assert(self@.slots =~= before.slots.update(sid as int, Slot { active: false, ..t }));
                assert(self@ =~= before.turn(set, sid as int));
            }
        }
    }

    /// Gives every slot its turn: every idle query integrates its round and
    /// expands. Returns the reads to stage, as block and tag.
    pub fn advance<S: RouteScorer>(&mut self, scorer: &S, queries: &FloatVectors) -> (requests: Vec<(u64, u64)>)
        requires
            queries.count > 0 ==> old(self).run().setting(scorer, queries).wf(),
            queries.wf(),
            forall|q: int|
                0 <= q < queries.count ==> covers_all(
                    scorer,
                    #[trigger] queries.row(q),
                    old(self).run().points,
                ),
            old(self).wf(),
            old(self)@.sound(old(self).run().setting(scorer, queries)),
        ensures
            final(self).run() == old(self).run(),
            final(self).wf(),
            final(self)@.sound(old(self).run().setting(scorer, queries)),
            final(self)@ == old(self)@.advanced(old(self).run().setting(scorer, queries), old(self)@.slots.len()),
            requests@ == old(self)@.requests(old(self).run().setting(scorer, queries), old(self)@.slots.len()),
    {
        let ghost start = self@;
        let ghost run = self.run();
        let ghost set = run.setting(scorer, queries);
        let mut requests: Vec<(u64, u64)> = Vec::new();
        let mut sid: usize = 0;
        while sid < self.states.len()
            invariant
                sid <= self@.slots.len(),
                self@.slots.len() == self.states@.len(),
                self@.slots.len() == start.slots.len(),
                self.run() == run,
                set == run.setting(scorer, queries),
                set.queries > 0 ==> set.wf(),
                queries.wf(),
                forall|q: int|
                    0 <= q < queries.count ==> covers_all(scorer, #[trigger] queries.row(q), set.points),
                self.wf(),
                start.sound(set),
                self@.sound(set),
                self@ == start.advanced(set, sid as nat),
                requests@ == start.requests(set, sid as nat),
            decreases self@.slots.len() - sid,
        {
            proof {
                lemma_turn(self@, set, sid as int);
            }
            self.turn(sid, scorer, queries, &mut requests, Ghost(set));
            sid += 1;
        }
        requests
    }

    /// Takes a block that landed: the node's neighbors go to routing, and its
    /// full-precision vector is measured for the rerank. A block that names a
    /// neighbor that cannot be scored is refused.
    pub fn complete<M: Fn(&[u32], &[u32]) -> u32>(
        &mut self,
        queries: &FloatVectors,
        metric: &M,
        tag: u64,
        block: &[u8],
    ) -> (r: Result<(), u32>)
        requires
            old(self).wf(),
            old(self).run().meta.wf(),
            queries.wf(),
            queries.dim == old(self).run().meta.dim,
            block@.len() == BLOCK_SIZE,
            tag % 65536 < old(self)@.slots.len(),
            tag / 65536 <= u32::MAX,
            old(self)@.slots[tag as int % 65536].active,
            old(self)@.slots[tag as int % 65536].qi < queries.count,
            old(self)@.slots[tag as int % 65536].waiting.contains((tag / 65536) as u32),
            forall|a: &[u32], b: &[u32]| a@.len() == b@.len() ==> #[trigger] call_requires(*metric, (a, b)),
        ensures
            final(self).run() == old(self).run(),
            final(self).wf(),
            ({
                let sid = tag as int % 65536;
                let node = (tag / 65536) as u32;
                let meta = old(self).run().meta;
                let query = queries.row(old(self)@.slots[sid].qi);
                if in_range(meta.list_in(block@, node), old(self).run().points) {
                    &&& r is Ok
                    &&& exists|d: u32| #[trigger]
                        measures(metric, query, meta.vector_in(block@, node), d) && final(self)@ == old(self)@.receive(
                            sid,
                            Fetch { node, block: block@, dist: d },
                        )
                } else {
                    &&& r == Err::<(), u32>(node)
                    &&& final(self)@ == old(self)@
                }
            }),
            forall|set: Setting|
                set.wf() && set.meta == old(self).run().meta && set.points == old(self).run().points
                    && #[trigger] old(self)@.sound(set) ==> final(self)@.sound(set),
    {
        let ghost before = self@;
        let ghost run = self.run();
        let sid: usize = (tag % 65536) as usize;
        let node: u32 = (tag / 65536) as u32;
        let ghost s = before.slots[sid as int];
        let meta: DiskIndexMeta = self.meta;
        let off: usize = meta.locate(node).1;
        let dim: usize = meta.dim as usize;
        let bytes = vstd::slice::slice_subrange(block, off, off + meta.node_len as usize);
        let list = parse_neighbors(bytes, dim, meta.r as usize);
        if !all_below(list.as_slice(), self.points) {
            return Err(node);
        }
        let vector = decode_vector(bytes, dim);
        assert(self.states@[sid as int].wf(run.k, run.meta));
        let d: u32 = metric(queries.get(self.states[sid].qi), vector.as_slice());
        let ghost f = Fetch { node, block: block@, dist: d };
        assert(measures(metric, queries.row(s.qi), meta.vector_in(block@, node), d));
        self.states[sid].land(d, node, &list, Ghost(f), Ghost(run));
        proof {
            assert(self@.slots =~= before.slots.update(sid as int, s.receive(f)));
            assert(self@ =~= before.receive(sid as int, f));
            assert forall|set: Setting| set.wf() && set.meta == run.meta && set.points == run.points
                && #[trigger] before.sound(set) implies self@.sound(set) by {
                lemma_schedule_receive(before, set, sid as int, f);
            }
        }
        Ok(())
    }

    /// The results: per query its top-k in ascending order, and its block
    /// reads.
    pub fn into_results(self) -> (results: Vec<(Vec<(u32, u32)>, usize)>)
        requires
            self.wf(),
            open_count(self@.finished) == 0,
        ensures
            results@.len() == self@.finished.len(),
            forall|q: int|
                0 <= q < results@.len() ==> self@.finished[q] is Some && (#[trigger] results@[q]).0@ == outcome(
                    self.run().k,
                    self@.finished[q]->Some_0,
                ).0 && results@[q].1 == outcome(self.run().k, self@.finished[q]->Some_0).1,
    {
        proof {
            lemma_open_count_zero(self.finished@);
            assert forall|q: int| 0 <= q < self.results@.len() implies (#[trigger] self.results@[q]).0@ == outcome(
                self.k as nat,
                self.finished@[q]->Some_0,
            ).0 by {
                assert(self.finished@[q] is Some);
            }
        }
        self.results
    }
}

/// Appends the reads of a slot, as block and tag.
fn push_requests(
    requests: &mut Vec<(u64, u64)>,
    meta: &DiskIndexMeta,
    sid: usize,
    frontier: &Vec<(u32, u32)>,
    Ghost(nodes): Ghost<Seq<u32>>,
)
    requires
        meta.wf(),
        sid < 65536,
        frontier@.len() == nodes.len(),
        forall|i: int| 0 <= i < nodes.len() ==> (#[trigger] frontier@[i]).1 == nodes[i],
    ensures
        final(requests)@ == old(requests)@ + tagged(*meta, sid as int, nodes),
{
    let ghost before = requests@;
    let mut i: usize = 0;
    assert(requests@ =~= before + tagged(*meta, sid as int, nodes).take(0));
    while i < frontier.len()
        invariant
            meta.wf(),
            sid < 65536,
            i <= frontier@.len(),
            frontier@.len() == nodes.len(),
            forall|i: int| 0 <= i < nodes.len() ==> (#[trigger] frontier@[i]).1 == nodes[i],
            requests@ == before + tagged(*meta, sid as int, nodes).take(i as int),
        decreases frontier@.len() - i,
    {
        let node: u32 = frontier[i].1;
        let block: u64 = meta.locate(node).0;
        requests.push((block, sid as u64 + node as u64 * 65536));
        i += 1;
        assert(requests@ =~= before + tagged(*meta, sid as int, nodes).take(i as int));
    }
    assert(tagged(*meta, sid as int, nodes).take(i as int) =~= tagged(*meta, sid as int, nodes));
}

/// As many queries are in flight as were asked for, but at least one: unless
/// there are fewer queries, or more than a tag can tell apart.
pub proof fn law_slots_are_as_many_as_wanted(concurrency: nat, queries: nat)
    ensures
        ({
            let n = slot_count(concurrency, queries);
            &&& n <= queries && n <= 65535
            &&& concurrency >= 1 ==> n <= concurrency
            &&& concurrency == 0 ==> n <= 1
            &&& n == queries || n == 65535 || n == concurrency || (concurrency == 0 && n == 1)
        }),
{
}

/// A run scores the points for each query by the query's own vector, and goes
/// by the parameters that it was given.
pub proof fn law_runs_go_by_their_queries<S: RouteScorer>(
    meta: DiskIndexMeta,
    scorer: &S,
    queries: &FloatVectors,
    params: PipelineParams,
    q: int,
    id: u32,
)
    ensures
        ({
            let set = run_of(meta, scorer, params).setting(scorer, queries);
            &&& set.meta == meta
            &&& set.k == params.k && set.ef == params.ef && set.w == params.w
            &&& set.points == scorer.points()
            &&& set.queries == queries.count
            &&& (set.score)(q)(id) == scorer.distance(queries.row(q), id)
        }),
{
}

/// The result of a query is made of all that was read for it: the best of the
/// distances that were measured, and the number of reads.
pub proof fn law_results_are_of_all_that_was_read(k: nat, log: Seq<Seq<Fetch>>, measured: Seq<(u32, u32)>)
    requires
        measured.len() == log.flatten().len(),
        forall|i: int|
            0 <= i < measured.len() ==> (#[trigger] measured[i]).0 == log.flatten()[i].dist && measured[i].1
                == log.flatten()[i].node,
    ensures
        outcome(k, log).0 == kept(measured, k),
        outcome(k, log).1 == measured.len(),
{
    assert(reranked(log.flatten()) =~= measured);
}

} // verus!
