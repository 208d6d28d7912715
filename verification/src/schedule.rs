//! The course of a pipelined search.
//!
//! Several query state machines share one queue of block reads. This module
//! holds the model of that: what each of them does in its turn, what it does
//! with a block that landed, and what holds of all of them at any time.

use vstd::prelude::*;

use crate::beam::{
    in_range, lemma_expand, lemma_picks, lemma_seeded, lemma_welcome_all, lemma_welcome_expanded, picks, Beam,
};
use crate::disk::{lists_of, Fetch};
use crate::layout::DiskIndexMeta;

verus! {

/// What a run of the pipeline is about: the index, the parameters, how many
/// points can be scored, how many queries there are, and how each of them
/// scores the points.
pub struct Setting {
    pub meta: DiskIndexMeta,
    pub k: nat,
    pub ef: nat,
    pub w: nat,
    pub points: nat,
    pub queries: nat,
    pub score: spec_fn(int) -> spec_fn(u32) -> u32,
}

/// The nodes of a list of reads.
pub open spec fn nodes_of(fetched: Seq<Fetch>) -> Seq<u32> {
    Seq::new(fetched.len(), |i: int| fetched[i].node)
}

/// All neighbors in a list of reads, one list after the other.
pub open spec fn neighbors_in(meta: DiskIndexMeta, fetched: Seq<Fetch>) -> Seq<u32> {
    lists_of(meta, fetched).flatten()
}

/// Every node of the frontier was read once, in any order.
pub open spec fn answers(frontier: Seq<u32>, round: Seq<Fetch>) -> bool {
    &&& round.len() == frontier.len()
    &&& nodes_of(round).no_duplicates()
    &&& nodes_of(round).to_set() == frontier.to_set()
}

impl Setting {
    pub open spec fn wf(self) -> bool {
        &&& self.meta.wf()
        &&& self.meta.medoid < self.points
        &&& 0 < self.k <= self.ef
        &&& self.w > 0
    }

    /// Where query `q` starts.
    pub open spec fn start(self, q: int) -> Beam {
        Beam::seeded(self.meta.medoid, (self.score)(q)(self.meta.medoid))
    }

    /// Where query `q` stands after these rounds.
    pub open spec fn course(self, q: int, log: Seq<Seq<Fetch>>) -> Beam
        decreases log.len(),
    {
        if log.len() == 0 {
            self.start(q)
        } else {
            self.course(q, log.drop_last()).expand(self.w).welcome_all(
                self.ef,
                (self.score)(q),
                neighbors_in(self.meta, log.last()),
            )
        }
    }

    /// In each round the nodes that the query expanded were read, in any
    /// order, and their neighbors can be scored.
    pub open spec fn follows(self, q: int, log: Seq<Seq<Fetch>>) -> bool
        decreases log.len(),
    {
        log.len() == 0 || {
            &&& self.follows(q, log.drop_last())
            &&& self.course(q, log.drop_last()).frontier(self.w).len() > 0
            &&& answers(self.course(q, log.drop_last()).frontier(self.w), log.last())
            &&& in_range(neighbors_in(self.meta, log.last()), self.points)
        }
    }

    /// After these rounds query `q` has nothing left to expand.
    pub open spec fn settled(self, q: int, log: Seq<Seq<Fetch>>) -> bool {
        &&& self.follows(q, log)
        &&& self.course(q, log).frontier(self.w).len() == 0
    }
}

/// A query state machine.
#[verifier::ext_equal]
pub struct Slot {
    /// The query.
    pub qi: int,
    /// False once there is no query left to take.
    pub active: bool,
    /// Where the query stands.
    pub beam: Beam,
    /// What was read in its rounds so far.
    pub log: Seq<Seq<Fetch>>,
    /// What was read in the current round.
    pub arrived: Seq<Fetch>,
    /// What is still to be read in the current round.
    pub waiting: Set<u32>,
}

impl Slot {
    /// A slot that takes up query `q`.
    pub open spec fn fresh(set: Setting, q: int) -> Slot {
        Slot {
            qi: q,
            active: true,
            beam: set.start(q),
            log: Seq::empty(),
            arrived: Seq::empty(),
            waiting: Set::empty(),
        }
    }

    /// Nothing is in flight for the query.
    pub open spec fn idle(self) -> bool {
        self.active && self.waiting == Set::<u32>::empty()
    }

    /// The slot once the finished round is taken in.
    pub open spec fn integrate(self, set: Setting) -> Slot {
        if self.arrived.len() == 0 {
            self
        } else {
            Slot {
                beam: self.beam.welcome_all(set.ef, (set.score)(self.qi), neighbors_in(set.meta, self.arrived)),
                log: self.log.push(self.arrived),
                arrived: Seq::empty(),
                ..self
            }
        }
    }

    /// The slot once its next round is under way.
    pub open spec fn issue(self, set: Setting) -> Slot {
        Slot { beam: self.beam.expand(set.w), waiting: self.beam.frontier(set.w).to_set(), ..self }
    }

    /// The slot once a block landed.
    pub open spec fn receive(self, f: Fetch) -> Slot {
        Slot { arrived: self.arrived.push(f), waiting: self.waiting.remove(f.node), ..self }
    }

    /// The query has followed its rounds; and either it is between two
    /// rounds, or what landed and what is in flight make up the current one.
    pub open spec fn sound(self, set: Setting) -> bool {
        let at = set.course(self.qi, self.log);
        self.active ==> {
            &&& 0 <= self.qi < set.queries
            &&& set.follows(self.qi, self.log)
            &&& if self.arrived.len() == 0 && self.waiting == Set::<u32>::empty() {
                self.beam == at
            } else {
                &&& self.beam == at.expand(set.w)
                &&& at.frontier(set.w).len() > 0
                &&& self.waiting.finite()
                &&& nodes_of(self.arrived).no_duplicates()
                &&& forall|i: int|
                    0 <= i < self.arrived.len() ==> !self.waiting.contains((#[trigger] self.arrived[i]).node)
                &&& nodes_of(self.arrived).to_set().union(self.waiting) == at.frontier(set.w).to_set()
                &&& self.arrived.len() + self.waiting.len() == at.frontier(set.w).len()
                &&& in_range(neighbors_in(set.meta, self.arrived), set.points)
            }
        }
    }
}

/// How many queries are still without a result.
pub open spec fn open_count(finished: Seq<Option<Seq<Seq<Fetch>>>>) -> nat
    decreases finished.len(),
{
    if finished.len() == 0 {
        0
    } else {
        open_count(finished.drop_last()) + (if finished.last() is Some { 0nat } else { 1nat })
    }
}

/// The whole pipeline.
#[verifier::ext_equal]
pub struct Schedule {
    pub slots: Seq<Slot>,
    /// The next query to take up.
    pub next: int,
    /// For each query that is done, what was read in its rounds.
    pub finished: Seq<Option<Seq<Seq<Fetch>>>>,
}

impl Schedule {
    /// The pipeline at the start: the first queries are taken up.
    pub open spec fn opened(set: Setting, slots: nat) -> Schedule {
        Schedule {
            slots: Seq::new(slots, |i: int| Slot::fresh(set, i)),
            next: slots as int,
            finished: Seq::new(set.queries, |q: int| None),
        }
    }

    /// The pipeline after slot `sid` had its turn: an idle slot takes in its
    /// round and starts the next one; if nothing is left to expand, its query
    /// is done, and the slot takes up the next query, if there is one.
    pub open spec fn turn(self, set: Setting, sid: int) -> Schedule {
        let s = self.slots[sid];
        let t = s.integrate(set);
        if !s.idle() {
            self
        } else if t.beam.frontier(set.w).len() > 0 {
            Schedule { slots: self.slots.update(sid, t.issue(set)), ..self }
        } else if self.next < set.queries {
            Schedule {
                slots: self.slots.update(sid, Slot::fresh(set, self.next).issue(set)),
                next: self.next + 1,
                finished: self.finished.update(s.qi, Some(t.log)),
            }
        } else {
            Schedule {
                slots: self.slots.update(sid, Slot { active: false, ..t }),
                next: self.next,
                finished: self.finished.update(s.qi, Some(t.log)),
            }
        }
    }

    /// The nodes that slot `sid` asks for in its turn.
    pub open spec fn asks(self, set: Setting, sid: int) -> Seq<u32> {
        let s = self.slots[sid];
        let t = s.integrate(set);
        if !s.idle() {
            Seq::empty()
        } else if t.beam.frontier(set.w).len() > 0 {
            t.beam.frontier(set.w)
        } else if self.next < set.queries {
            set.start(self.next).frontier(set.w)
        } else {
            Seq::empty()
        }
    }

    /// The pipeline after the first `sid` slots had their turns.
    pub open spec fn advanced(self, set: Setting, sid: nat) -> Schedule
        decreases sid,
    {
        if sid == 0 {
            self
        } else {
            self.advanced(set, (sid - 1) as nat).turn(set, sid - 1)
        }
    }

    /// The reads that the first `sid` slots ask for, as block and tag.
    pub open spec fn requests(self, set: Setting, sid: nat) -> Seq<(u64, u64)>
        decreases sid,
    {
        if sid == 0 {
            Seq::empty()
        } else {
            self.requests(set, (sid - 1) as nat) + tagged(
                set.meta,
                sid - 1,
                self.advanced(set, (sid - 1) as nat).asks(set, sid - 1),
            )
        }
    }

    /// The pipeline after a block landed for slot `sid`.
    pub open spec fn receive(self, sid: int, f: Fetch) -> Schedule {
        Schedule { slots: self.slots.update(sid, self.slots[sid].receive(f)), ..self }
    }

    /// Every slot is sound; the active ones work on different queries; every
    /// query that was taken up is being worked on or done; what is done is
    /// settled; and no slot rests while a query waits.
    pub open spec fn sound(self, set: Setting) -> bool {
        &&& 0 <= self.next <= set.queries
        &&& self.finished.len() == set.queries
        &&& set.queries > 0 ==> self.slots.len() > 0
        &&& self.slots.len() <= set.queries
        &&& forall|i: int| 0 <= i < self.slots.len() ==> (#[trigger] self.slots[i]).sound(set)
        &&& forall|i: int|
            0 <= i < self.slots.len() && (#[trigger] self.slots[i]).active ==> self.slots[i].qi < self.next
                && self.finished[self.slots[i].qi] is None
        &&& forall|i: int, j: int|
            0 <= i < j < self.slots.len() && (#[trigger] self.slots[i]).active && (#[trigger] self.slots[j]).active
                ==> self.slots[i].qi != self.slots[j].qi
        &&& forall|q: int| self.next <= q < set.queries ==> (#[trigger] self.finished[q]) is None
        &&& forall|q: int|
            0 <= q < set.queries && (#[trigger] self.finished[q]) is Some ==> set.settled(q, self.finished[q]->Some_0)
        &&& forall|q: int| 0 <= q < self.next ==> (#[trigger] self.finished[q]) is Some || self.works_on(q)
        &&& forall|i: int| 0 <= i < self.slots.len() && !(#[trigger] self.slots[i]).active ==> self.next == set.queries
    }

    /// Everything that was read for a query is good.
    pub open spec fn vouched(self, good: spec_fn(int, Fetch) -> bool) -> bool {
        &&& forall|i: int|
            0 <= i < self.slots.len() && (#[trigger] self.slots[i]).active ==> log_vouched(
                self.slots[i].log,
                self.slots[i].qi,
                good,
            ) && round_vouched(self.slots[i].arrived, self.slots[i].qi, good)
        &&& forall|q: int|
            0 <= q < self.finished.len() && (#[trigger] self.finished[q]) is Some ==> log_vouched(
                self.finished[q]->Some_0,
                q,
                good,
            )
    }

    /// A slot works on query `q`.
    pub open spec fn works_on(self, q: int) -> bool {
        exists|i: int| 0 <= i < self.slots.len() && (#[trigger] self.slots[i]).active && self.slots[i].qi == q
    }
}

/// Everything that was read in a round of query `q` is good.
pub open spec fn round_vouched(round: Seq<Fetch>, q: int, good: spec_fn(int, Fetch) -> bool) -> bool {
    forall|i: int| 0 <= i < round.len() ==> good(q, #[trigger] round[i])
}

/// Everything that was read in the rounds of query `q` is good.
pub open spec fn log_vouched(log: Seq<Seq<Fetch>>, q: int, good: spec_fn(int, Fetch) -> bool) -> bool {
    forall|j: int| 0 <= j < log.len() ==> round_vouched(#[trigger] log[j], q, good)
}

/// The tag of a read: the slot that asked for it, and the node.
pub open spec fn tag_of(sid: int, node: u32) -> int {
    sid + node * 65536
}

/// The reads of a slot, as block and tag.
pub open spec fn tagged(meta: DiskIndexMeta, sid: int, nodes: Seq<u32>) -> Seq<(u64, u64)> {
    Seq::new(nodes.len(), |i: int| (meta.block_of(nodes[i]) as u64, tag_of(sid, nodes[i]) as u64))
}

/// The frontier names each node once.
pub proof fn lemma_frontier_distinct(b: Beam, w: nat)
    requires
        b.wf(),
    ensures
        b.frontier(w).no_duplicates(),
        b.frontier(w).len() <= w,
        b.frontier(w).len() <= b.pool.len(),
        forall|i: int| 0 <= i < b.frontier(w).len() ==> b.visited.contains(#[trigger] b.frontier(w)[i]),
{
    lemma_picks(b.pool, b.pool.len(), w);
    let at = b.chosen(w);
    assert forall|i: int, j: int|
        0 <= i < b.frontier(w).len() && 0 <= j < b.frontier(w).len() && i != j implies b.frontier(w)[i] != b.frontier(
        w,
    )[j] by {
        if i < j {
            assert(at[i] < at[j]);
            assert(b.pool[at[i]].id != b.pool[at[j]].id);
        } else {
            assert(at[j] < at[i]);
            assert(b.pool[at[j]].id != b.pool[at[i]].id);
        }
    }
    assert forall|i: int| 0 <= i < b.frontier(w).len() implies b.visited.contains(#[trigger] b.frontier(w)[i]) by {
        assert(b.visited.contains(b.pool[at[i]].id));
    }
}

/// A query that has followed its rounds is well formed.
pub proof fn lemma_course(set: Setting, q: int, log: Seq<Seq<Fetch>>)
    requires
        set.wf(),
        set.follows(q, log),
    ensures
        set.course(q, log).wf(),
        set.course(q, log).scored((set.score)(q)),
        set.course(q, log).pool.len() <= set.ef,
        set.course(q, log).below(set.points),
    decreases log.len(),
{
    let score = (set.score)(q);
    if log.len() == 0 {
        lemma_seeded(set.meta.medoid, score(set.meta.medoid), score);
    } else {
        let b = set.course(q, log.drop_last());
        lemma_course(set, q, log.drop_last());
        lemma_expand(b, set.w);
        lemma_welcome_all(b.expand(set.w), set.ef, score, neighbors_in(set.meta, log.last()), set.points);
    }
}

/// A query always has a first round.
pub proof fn lemma_start_expands(set: Setting, q: int)
    requires
        set.w > 0,
    ensures
        set.start(q).frontier(set.w).len() == 1,
{
    reveal_with_fuel(picks, 2);
}

/// The beam of a sound, active slot is well formed.
pub proof fn lemma_slot_beam(s: Slot, set: Setting)
    requires
        set.wf(),
        s.active,
        s.sound(set),
    ensures
        s.beam.wf(),
        s.beam.scored((set.score)(s.qi)),
        s.beam.pool.len() <= set.ef,
        s.beam.below(set.points),
{
    lemma_course(set, s.qi, s.log);
    lemma_expand(set.course(s.qi, s.log), set.w);
}

/// Taking in a finished round leaves a sound slot between two rounds.
pub proof fn lemma_integrate(s: Slot, set: Setting)
    requires
        set.wf(),
        s.idle(),
        s.sound(set),
    ensures
        s.integrate(set).sound(set),
        s.integrate(set).idle(),
        s.integrate(set).arrived.len() == 0,
        s.integrate(set).qi == s.qi,
        s.integrate(set).beam == set.course(s.qi, s.integrate(set).log),
        set.follows(s.qi, s.integrate(set).log),
{
    if s.arrived.len() > 0 {
        let t = s.integrate(set);
        let at = set.course(s.qi, s.log);
        assert(t.log.drop_last() =~= s.log);
        assert(t.log.last() == s.arrived);
        assert(nodes_of(s.arrived).to_set().union(s.waiting) =~= nodes_of(s.arrived).to_set());
        assert(answers(at.frontier(set.w), s.arrived));
    }
}

/// Starting a round keeps a slot sound.
pub proof fn lemma_issue(s: Slot, set: Setting)
    requires
        set.wf(),
        s.idle(),
        s.sound(set),
        s.arrived.len() == 0,
        s.beam.frontier(set.w).len() > 0,
    ensures
        s.issue(set).sound(set),
        s.issue(set).waiting != Set::<u32>::empty(),
        s.issue(set).waiting.finite(),
        s.issue(set).waiting.len() == s.beam.frontier(set.w).len(),
{
    let t = s.issue(set);
    let f = s.beam.frontier(set.w);
    lemma_course(set, s.qi, s.log);
    lemma_frontier_distinct(s.beam, set.w);
    f.unique_seq_to_set();
    vstd::seq_lib::seq_to_set_is_finite(f);
    assert(t.waiting.contains(f[0]));
    assert(nodes_of(t.arrived).to_set().union(t.waiting) =~= t.waiting);
    assert(lists_of(set.meta, t.arrived) =~= Seq::empty());
}

/// A block that lands keeps a slot sound.
pub proof fn lemma_receive(s: Slot, set: Setting, f: Fetch)
    requires
        set.wf(),
        s.active,
        s.sound(set),
        s.waiting.contains(f.node),
        in_range(set.meta.list_in(f.block, f.node), set.points),
    ensures
        s.receive(f).sound(set),
        s.receive(f).waiting.len() == s.waiting.len() - 1,
        neighbors_in(set.meta, s.receive(f).arrived) == neighbors_in(set.meta, s.arrived) + set.meta.list_in(
            f.block,
            f.node,
        ),
{
    let t = s.receive(f);
    let list = set.meta.list_in(f.block, f.node);
    assert(s.waiting != Set::<u32>::empty());
    assert(lists_of(set.meta, t.arrived) =~= lists_of(set.meta, s.arrived).push(list));
    lists_of(set.meta, s.arrived).lemma_flatten_push(list);
    let joined = neighbors_in(set.meta, t.arrived);
    let before = neighbors_in(set.meta, s.arrived);
    assert forall|i: int| 0 <= i < joined.len() implies #[trigger] joined[i] < set.points by {
        if i < before.len() {
            assert(before[i] < set.points);
        } else {
            assert(list[i - before.len()] < set.points);
        }
    }
    let a = nodes_of(s.arrived);
    let b = nodes_of(t.arrived);
    assert(b =~= a.push(f.node));
    assert forall|i: int| 0 <= i < a.len() implies a[i] != f.node by {
        assert(s.arrived[i].node == a[i]);
    }
    assert(b.no_duplicates());
    assert(b.to_set().union(t.waiting) =~= a.to_set().union(s.waiting)) by {
        assert forall|x: u32| b.to_set().contains(x) implies a.to_set().contains(x) || x == f.node by {
            let i = choose|i: int| 0 <= i < b.len() && b[i] == x;
            if i < a.len() {
                assert(a[i] == x);
            }
        }
        assert forall|x: u32| a.to_set().contains(x) implies b.to_set().contains(x) by {
            let i = choose|i: int| 0 <= i < a.len() && a[i] == x;
            assert(b[i] == x);
        }
        assert(b[a.len() as int] == f.node);
    }
    assert forall|i: int| 0 <= i < t.arrived.len() implies !t.waiting.contains((#[trigger] t.arrived[i]).node) by {
        if i < s.arrived.len() {
            assert(t.arrived[i] == s.arrived[i]);
        }
    }
}

/// A slot that takes up a query is sound.
pub proof fn lemma_fresh_slot(set: Setting, q: int)
    requires
        set.wf(),
        0 <= q < set.queries,
    ensures
        Slot::fresh(set, q).sound(set),
        Slot::fresh(set, q).idle(),
        Slot::fresh(set, q).issue(set).sound(set),
        Slot::fresh(set, q).issue(set).waiting != Set::<u32>::empty(),
{
    lemma_start_expands(set, q);
    lemma_issue(Slot::fresh(set, q), set);
}

/// The pipeline starts out sound.
pub proof fn lemma_opened(set: Setting, slots: nat)
    requires
        set.queries > 0 ==> set.wf(),
        slots <= set.queries,
        set.queries > 0 ==> slots > 0,
    ensures
        Schedule::opened(set, slots).sound(set),
{
    let p = Schedule::opened(set, slots);
    assert forall|i: int| 0 <= i < p.slots.len() implies (#[trigger] p.slots[i]).sound(set) by {
        lemma_fresh_slot(set, i);
    }
    assert forall|q: int| 0 <= q < p.next implies (#[trigger] p.finished[q]) is Some || p.works_on(q) by {
        assert(p.slots[q].active && p.slots[q].qi == q);
    }
}

/// A turn keeps the pipeline sound, and leaves the slot busy or at rest.
pub proof fn lemma_turn(p: Schedule, set: Setting, sid: int)
    requires
        set.wf(),
        p.sound(set),
        0 <= sid < p.slots.len(),
    ensures
        p.turn(set, sid).sound(set),
        p.turn(set, sid).slots.len() == p.slots.len(),
        !p.turn(set, sid).slots[sid].idle(),
        forall|i: int| 0 <= i < p.slots.len() && i != sid ==> #[trigger] p.turn(set, sid).slots[i] == p.slots[i],
{
    let s = p.slots[sid];
    let n = p.turn(set, sid);
    if s.idle() {
        let t = s.integrate(set);
        lemma_integrate(s, set);
        if t.beam.frontier(set.w).len() > 0 {
            lemma_issue(t, set);
            assert(n.slots[sid].active && n.slots[sid].qi == s.qi);
        } else if p.next < set.queries {
            lemma_fresh_slot(set, p.next);
        }
        assert forall|i: int| 0 <= i < n.slots.len() implies (#[trigger] n.slots[i]).sound(set) by {
            if i != sid {
                assert(n.slots[i] == p.slots[i]);
            }
        }
        assert forall|i: int| 0 <= i < n.slots.len() && (#[trigger] n.slots[i]).active implies n.slots[i].qi < n.next
            && n.finished[n.slots[i].qi] is None by {
            if i != sid {
                assert(n.slots[i] == p.slots[i]);
                if i < sid {
                    assert(p.slots[i].qi != p.slots[sid].qi);
                } else {
                    assert(p.slots[sid].qi != p.slots[i].qi);
                }
            }
        }
        assert forall|i: int, j: int|
            0 <= i < j < n.slots.len() && (#[trigger] n.slots[i]).active && (
            #[trigger] n.slots[j]).active implies n.slots[i].qi != n.slots[j].qi by {
            if i != sid {
                assert(n.slots[i] == p.slots[i]);
            }
            if j != sid {
                assert(n.slots[j] == p.slots[j]);
            }
            if i == sid {
                assert(p.slots[sid].qi != p.slots[j].qi);
            } else if j == sid {
                assert(p.slots[i].qi != p.slots[sid].qi);
            } else {
                assert(p.slots[i].qi != p.slots[j].qi);
            }
        }
        assert forall|q: int| 0 <= q < set.queries && (#[trigger] n.finished[q]) is Some implies set.settled(
            q,
            n.finished[q]->Some_0,
        ) by {
            if q != s.qi {
                assert(n.finished[q] == p.finished[q]);
            } else {
                assert(p.finished[q] is None);
            }
        }
        assert forall|q: int| 0 <= q < n.next implies (#[trigger] n.finished[q]) is Some || n.works_on(q) by {
            if q < p.next && n.finished[q] is None {
                assert(n.finished[q] == p.finished[q]);
                assert(p.works_on(q));
                let i = choose|i: int| 0 <= i < p.slots.len() && (#[trigger] p.slots[i]).active && p.slots[i].qi == q;
                assert(n.slots[i].active && n.slots[i].qi == q);
            } else if q >= p.next {
                assert(n.slots[sid].active && n.slots[sid].qi == q);
            }
        }
        assert forall|q: int| n.next <= q < set.queries implies (#[trigger] n.finished[q]) is None by {
            assert(p.finished[q] is None);
        }
        assert forall|i: int| 0 <= i < n.slots.len() && !(#[trigger] n.slots[i]).active implies n.next
            == set.queries by {
            if i != sid {
                assert(n.slots[i] == p.slots[i]);
            }
        }
    }
}

/// Turns keep the pipeline sound, and leave no slot idle.
pub proof fn lemma_advanced(p: Schedule, set: Setting, sid: nat)
    requires
        set.wf(),
        p.sound(set),
        sid <= p.slots.len(),
    ensures
        p.advanced(set, sid).sound(set),
        p.advanced(set, sid).slots.len() == p.slots.len(),
        forall|i: int| 0 <= i < sid ==> !(#[trigger] p.advanced(set, sid).slots[i]).idle(),
        forall|i: int| sid <= i < p.slots.len() ==> #[trigger] p.advanced(set, sid).slots[i] == p.slots[i],
    decreases sid,
{
    if sid > 0 {
        let b = p.advanced(set, (sid - 1) as nat);
        let n = p.advanced(set, sid);
        lemma_advanced(p, set, (sid - 1) as nat);
        lemma_turn(b, set, sid - 1);
        assert forall|i: int| 0 <= i < sid implies !(#[trigger] n.slots[i]).idle() by {
            if i < sid - 1 {
                assert(n.slots[i] == b.slots[i]);
            }
        }
        assert forall|i: int| sid <= i < p.slots.len() implies #[trigger] n.slots[i] == p.slots[i] by {
            assert(n.slots[i] == b.slots[i]);
        }
    }
}

/// A block that lands keeps the pipeline sound.
pub proof fn lemma_schedule_receive(p: Schedule, set: Setting, sid: int, f: Fetch)
    requires
        set.wf(),
        p.sound(set),
        0 <= sid < p.slots.len(),
        p.slots[sid].active,
        p.slots[sid].waiting.contains(f.node),
        in_range(set.meta.list_in(f.block, f.node), set.points),
    ensures
        p.receive(sid, f).sound(set),
{
    let n = p.receive(sid, f);
    lemma_receive(p.slots[sid], set, f);
    assert forall|i: int| 0 <= i < n.slots.len() implies (#[trigger] n.slots[i]).sound(set) && n.slots[i].active
        == p.slots[i].active && n.slots[i].qi == p.slots[i].qi by {
        if i != sid {
            assert(n.slots[i] == p.slots[i]);
        }
    }
    assert forall|q: int| 0 <= q < n.next implies (#[trigger] n.finished[q]) is Some || n.works_on(q) by {
        assert(n.finished[q] == p.finished[q]);
        if n.finished[q] is None {
            assert(p.works_on(q));
            let i = choose|i: int| 0 <= i < p.slots.len() && (#[trigger] p.slots[i]).active && p.slots[i].qi == q;
            assert(n.slots[i].active && n.slots[i].qi == q);
        }
    }
    assert forall|i: int, j: int|
        0 <= i < j < n.slots.len() && (#[trigger] n.slots[i]).active && (
        #[trigger] n.slots[j]).active implies n.slots[i].qi != n.slots[j].qi by {
        assert(p.slots[i].qi != p.slots[j].qi);
    }
}

pub proof fn lemma_open_count_update(finished: Seq<Option<Seq<Seq<Fetch>>>>, q: int, log: Seq<Seq<Fetch>>)
    requires
        0 <= q < finished.len(),
        finished[q] is None,
    ensures
        open_count(finished.update(q, Some(log))) == open_count(finished) - 1,
        open_count(finished) > 0,
    decreases finished.len(),
{
    let after = finished.update(q, Some(log));
    if q == finished.len() - 1 {
        assert(after.drop_last() =~= finished.drop_last());
    } else {
        lemma_open_count_update(finished.drop_last(), q, log);
        assert(after.drop_last() =~= finished.drop_last().update(q, Some(log)));
    }
}

pub proof fn lemma_open_count_zero(finished: Seq<Option<Seq<Seq<Fetch>>>>)
    ensures
        open_count(finished) == 0 <==> forall|q: int| 0 <= q < finished.len() ==> (#[trigger] finished[q]) is Some,
        open_count(finished) <= finished.len(),
    decreases finished.len(),
{
    if finished.len() > 0 {
        let init = finished.drop_last();
        lemma_open_count_zero(init);
        if open_count(finished) == 0 {
            assert forall|q: int| 0 <= q < finished.len() implies (#[trigger] finished[q]) is Some by {
                if q < init.len() {
                    assert(init[q] is Some);
                }
            }
        }
        if forall|q: int| 0 <= q < finished.len() ==> (#[trigger] finished[q]) is Some {
            assert forall|q: int| 0 <= q < init.len() implies (#[trigger] init[q]) is Some by {
                assert(finished[q] is Some);
            }
            assert(finished[finished.len() - 1] is Some);
        }
    }
}

pub proof fn lemma_open_count_start(queries: nat)
    ensures
        open_count(Seq::new(queries, |q: int| None::<Seq<Seq<Fetch>>>)) == queries,
    decreases queries,
{
    if queries > 0 {
        let all = Seq::new(queries, |q: int| None::<Seq<Seq<Fetch>>>);
        lemma_open_count_start((queries - 1) as nat);
        assert(all.drop_last() =~= Seq::new((queries - 1) as nat, |q: int| None::<Seq<Seq<Fetch>>>));
    }
}

/// The pipeline never stalls: as long as a query is without a result, a read
/// is in flight once every slot had its turn.
pub proof fn law_reads_are_in_flight(p: Schedule, set: Setting)
    requires
        set.wf(),
        p.sound(set),
        open_count(p.advanced(set, p.slots.len()).finished) > 0,
    ensures
        exists|i: int|
            0 <= i < p.slots.len() && (#[trigger] p.advanced(set, p.slots.len()).slots[i]).active && p.advanced(
                set,
                p.slots.len(),
            ).slots[i].waiting != Set::<u32>::empty(),
{
    let n = p.advanced(set, p.slots.len());
    lemma_advanced(p, set, p.slots.len());
    lemma_open_count_zero(n.finished);
    let q = choose|q: int| 0 <= q < n.finished.len() && (#[trigger] n.finished[q]) is None;
    if n.slots[0].active {
        assert(!n.slots[0].idle());
    } else {
        assert(n.works_on(q));
        let i = choose|i: int| 0 <= i < n.slots.len() && (#[trigger] n.slots[i]).active && n.slots[i].qi == q;
        assert(!n.slots[i].idle());
    }
}

/// No slot has more than `w` reads in flight, so a queue of `w` entries per
/// slot holds them all.
pub proof fn law_queue_depth_is_bounded(p: Schedule, set: Setting, sid: int)
    requires
        set.wf(),
        p.sound(set),
        0 <= sid < p.slots.len(),
        p.slots[sid].active,
    ensures
        p.slots[sid].waiting.finite(),
        p.slots[sid].waiting.len() <= set.w,
{
    let s = p.slots[sid];
    lemma_course(set, s.qi, s.log);
    lemma_frontier_distinct(set.course(s.qi, s.log), set.w);
}

/// At the start nothing was read, so everything that was read is good.
pub proof fn law_opening_is_vouched(set: Setting, slots: nat, good: spec_fn(int, Fetch) -> bool)
    ensures
        Schedule::opened(set, slots).vouched(good),
{
}

/// Turns only pass on what was read: if it was good, it stays so.
pub proof fn law_advancing_stays_vouched(p: Schedule, set: Setting, sid: nat, good: spec_fn(int, Fetch) -> bool)
    requires
        set.wf(),
        p.sound(set),
        p.vouched(good),
        sid <= p.slots.len(),
    ensures
        p.advanced(set, sid).vouched(good),
    decreases sid,
{
    if sid > 0 {
        let b = p.advanced(set, (sid - 1) as nat);
        let n = p.advanced(set, sid);
        let s = b.slots[sid - 1];
        let t = s.integrate(set);
        lemma_advanced(p, set, (sid - 1) as nat);
        law_advancing_stays_vouched(p, set, (sid - 1) as nat, good);
        if s.idle() {
            assert(log_vouched(t.log, t.qi, good)) by {
                assert forall|j: int| 0 <= j < t.log.len() implies round_vouched(#[trigger] t.log[j], t.qi, good) by {
                    if j < s.log.len() {
                        assert(t.log[j] == s.log[j]);
                    }
                }
            }
            assert forall|i: int| 0 <= i < n.slots.len() && (#[trigger] n.slots[i]).active implies log_vouched(
                n.slots[i].log,
                n.slots[i].qi,
                good,
            ) && round_vouched(n.slots[i].arrived, n.slots[i].qi, good) by {
                if i != sid - 1 {
                    assert(n.slots[i] == b.slots[i]);
                }
            }
            assert forall|q: int| 0 <= q < n.finished.len() && (#[trigger] n.finished[q]) is Some implies log_vouched(
                n.finished[q]->Some_0,
                q,
                good,
            ) by {
                if n.finished[q] == b.finished[q] {
                    assert(b.finished[q] is Some);
                }
            }
        }
    }
}

/// If a block that lands is good, everything that was read stays good.
pub proof fn law_landing_stays_vouched(p: Schedule, sid: int, f: Fetch, good: spec_fn(int, Fetch) -> bool)
    requires
        p.vouched(good),
        0 <= sid < p.slots.len(),
        good(p.slots[sid].qi, f),
    ensures
        p.receive(sid, f).vouched(good),
{
    let n = p.receive(sid, f);
    assert forall|i: int| 0 <= i < n.slots.len() && (#[trigger] n.slots[i]).active implies log_vouched(
        n.slots[i].log,
        n.slots[i].qi,
        good,
    ) && round_vouched(n.slots[i].arrived, n.slots[i].qi, good) by {
        assert(p.slots[i].active);
        if i == sid {
            let arrived = n.slots[i].arrived;
            assert forall|j: int| 0 <= j < arrived.len() implies good(n.slots[i].qi, #[trigger] arrived[j]) by {
                if j < p.slots[i].arrived.len() {
                    assert(arrived[j] == p.slots[i].arrived[j]);
                }
            }
        } else {
            assert(n.slots[i] == p.slots[i]);
        }
    }
}

/// A tag tells its slot and its node.
pub proof fn law_tag_roundtrip(sid: int, node: u32)
    requires
        0 <= sid < 65536,
    ensures
        tag_of(sid, node) % 65536 == sid,
        tag_of(sid, node) / 65536 == node,
        0 <= tag_of(sid, node) <= u64::MAX,
{
}

/// A settled query read as many blocks as it expanded nodes.
pub proof fn lemma_course_reads(set: Setting, q: int, log: Seq<Seq<Fetch>>)
    requires
        set.follows(q, log),
    ensures
        set.course(q, log).expanded.len() == log.flatten().len(),
    decreases log.len(),
{
    if log.len() > 0 {
        let init = log.drop_last();
        let b = set.course(q, init);
        lemma_course_reads(set, q, init);
        init.lemma_flatten_push(log.last());
        assert(init.push(log.last()) =~= log);
        lemma_welcome_expanded(b.expand(set.w), set.ef, (set.score)(q), neighbors_in(set.meta, log.last()));
    }
}

/// The pipeline starts with the first queries, each at the entry point, and
/// with no results.
pub proof fn law_opening_takes_up_the_first_queries(set: Setting, slots: nat)
    ensures
        ({
            let p = Schedule::opened(set, slots);
            let entry = set.meta.medoid;
            &&& p.slots.len() == slots
            &&& p.next == slots
            &&& p.finished.len() == set.queries
            &&& forall|q: int| 0 <= q < set.queries ==> (#[trigger] p.finished[q]) is None
            &&& forall|i: int|
                0 <= i < slots ==> (#[trigger] p.slots[i]).active && p.slots[i].qi == i && p.slots[i].beam
                    == Beam::seeded(entry, (set.score)(i)(entry)) && p.slots[i].log.len() == 0
                    && p.slots[i].arrived.len() == 0 && p.slots[i].waiting == Set::<u32>::empty()
        }),
{
}

proof fn lemma_nothing_chosen(b: Beam, w: nat)
    requires
        w > 0,
    ensures
        b.frontier(w).len() == 0 <==> forall|i: int| 0 <= i < b.pool.len() ==> (#[trigger] b.pool[i]).expanded,
{
    lemma_picks(b.pool, b.pool.len(), w);
    if b.frontier(w).len() == 0 {
        assert forall|i: int| 0 <= i < b.pool.len() implies (#[trigger] b.pool[i]).expanded by {
            if !b.pool[i].expanded {
                assert(b.chosen(w).contains(i));
            }
        }
    }
    if b.frontier(w).len() > 0 && forall|i: int| 0 <= i < b.pool.len() ==> (#[trigger] b.pool[i]).expanded {
        assert(!b.pool[b.chosen(w)[0]].expanded);
    }
}

/// A slot that waits for a read, or rests, does nothing in its turn.
pub proof fn law_busy_slots_do_nothing(p: Schedule, set: Setting, sid: int)
    requires
        !p.slots[sid].active || p.slots[sid].waiting != Set::<u32>::empty(),
    ensures
        p.turn(set, sid) == p,
        p.asks(set, sid).len() == 0,
{
}

/// A slot that waits for nothing takes in the neighbors of the blocks that
/// landed, in the order of landing. If its query has a candidate left to
/// expand, the slot goes on: it asks for the frontier, and waits for it.
/// Otherwise the query is finished, with all its rounds. Then the slot asks
/// for the entry point on behalf of the next query, or rests if there is none.
pub proof fn law_idle_slots_go_on_or_hand_over(p: Schedule, set: Setting, sid: int)
    requires
        set.wf(),
        p.sound(set),
        0 <= sid < p.slots.len(),
        p.slots[sid].active,
        p.slots[sid].waiting == Set::<u32>::empty(),
    ensures
        ({
            let s = p.slots[sid];
            let n = p.turn(set, sid);
            let t = n.slots[sid];
            let asks = p.asks(set, sid);
            let b = s.beam.welcome_all(set.ef, (set.score)(s.qi), lists_of(set.meta, s.arrived).flatten());
            let log = if s.arrived.len() == 0 { s.log } else { s.log.push(s.arrived) };
            let spent = forall|i: int| 0 <= i < b.pool.len() ==> (#[trigger] b.pool[i]).expanded;
            let entry = set.meta.medoid;
            &&& n.slots.len() == p.slots.len()
            &&& forall|i: int| 0 <= i < p.slots.len() && i != sid ==> #[trigger] n.slots[i] == p.slots[i]
            &&& !spent ==> {
                &&& n.next == p.next
                &&& n.finished == p.finished
                &&& asks == b.frontier(set.w)
                &&& t.active && t.qi == s.qi
                &&& t.beam == b.expand(set.w)
                &&& t.log == log
            }
            &&& spent ==> {
                &&& n.finished == p.finished.update(s.qi, Some(log))
                &&& p.next < set.queries ==> {
                    &&& n.next == p.next + 1
                    &&& asks == seq![entry]
                    &&& t.active && t.qi == p.next
                    &&& t.beam == Beam::seeded(entry, (set.score)(p.next)(entry)).expand(set.w)
                    &&& t.log.len() == 0
                }
                &&& p.next >= set.queries ==> n.next == p.next && asks.len() == 0 && !t.active
            }
            &&& t.active ==> t.arrived.len() == 0 && t.waiting == asks.to_set() && asks.no_duplicates() && asks.len()
                > 0
        }),
{
    let s = p.slots[sid];
    let b = s.beam.welcome_all(set.ef, (set.score)(s.qi), lists_of(set.meta, s.arrived).flatten());
    let t = s.integrate(set);
    if s.arrived.len() == 0 {
        assert(lists_of(set.meta, s.arrived) =~= Seq::empty());
        assert(lists_of(set.meta, s.arrived).flatten() =~= Seq::empty());
    }
    assert(t.beam == b);
    lemma_nothing_chosen(b, set.w);
    lemma_integrate(s, set);
    lemma_course(set, t.qi, t.log);
    lemma_frontier_distinct(b, set.w);
    let entry = set.meta.medoid;
    let fresh = set.start(p.next);
    lemma_seeded(entry, (set.score)(p.next)(entry), (set.score)(p.next));
    lemma_picks(fresh.pool, fresh.pool.len(), set.w);
    lemma_nothing_chosen(fresh, set.w);
    assert(!fresh.pool[0].expanded);
    assert(fresh.frontier(set.w) =~= seq![entry]);
    lemma_frontier_distinct(fresh, set.w);
}

/// Slots have their turns in order, and what they ask for is requested in that
/// order, by block, and under a tag that tells the slot and the node.
pub proof fn law_requests_follow_the_turns(p: Schedule, set: Setting, sid: nat, i: int)
    requires
        set.meta.wf(),
        sid < 65536,
    ensures
        ({
            let before = p.requests(set, sid);
            let after = p.requests(set, sid + 1);
            let asks = p.advanced(set, sid).asks(set, sid as int);
            &&& p.advanced(set, 0) == p
            &&& p.advanced(set, sid + 1) == p.advanced(set, sid).turn(set, sid as int)
            &&& p.requests(set, 0).len() == 0
            &&& after.len() == before.len() + asks.len()
            &&& 0 <= i < before.len() ==> after[i] == before[i]
            &&& 0 <= i < asks.len() ==> after[before.len() + i].0 == 1 + asks[i] as int / set.meta.nodes_per_block as int
                && after[before.len() + i].1 == sid + asks[i] * 65536
        }),
{
    let before = p.requests(set, sid);
    let asks = p.advanced(set, sid).asks(set, sid as int);
    if 0 <= i < asks.len() {
        let node = asks[i];
        set.meta.lemma_offset(node);
        assert(0 <= node as int / set.meta.nodes_per_block as int <= node) by (nonlinear_arith)
            requires
                set.meta.nodes_per_block > 0,
        ;
        assert(p.requests(set, sid + 1)[before.len() + i] == tagged(set.meta, sid as int, asks)[i]);
    }
}

/// A block that lands goes to its slot, behind those that landed before it,
/// and is no longer waited for.
pub proof fn law_landed_blocks_go_to_their_slots(p: Schedule, sid: int, f: Fetch)
    requires
        0 <= sid < p.slots.len(),
    ensures
        ({
            let n = p.receive(sid, f);
            let s = p.slots[sid];
            &&& n.next == p.next && n.finished == p.finished
            &&& n.slots.len() == p.slots.len()
            &&& forall|i: int| 0 <= i < p.slots.len() && i != sid ==> #[trigger] n.slots[i] == p.slots[i]
            &&& n.slots[sid].arrived == s.arrived.push(f)
            &&& forall|id: u32| #[trigger] n.slots[sid].waiting.contains(id) <==> s.waiting.contains(id) && id != f.node
            &&& n.slots[sid].qi == s.qi && n.slots[sid].active == s.active && n.slots[sid].beam == s.beam
                && n.slots[sid].log == s.log
        }),
{
}

/// The count of open queries is that of the queries without a result, and
/// nothing is open when all of them have one.
pub proof fn law_open_queries_have_no_result(
    finished: Seq<Option<Seq<Seq<Fetch>>>>,
    open: spec_fn(Option<Seq<Seq<Fetch>>>) -> bool,
)
    requires
        forall|f: Option<Seq<Seq<Fetch>>>| #[trigger] open(f) <==> f is None,
    ensures
        open_count(finished) == finished.filter(open).len(),
        open_count(finished) == 0 <==> forall|q: int| 0 <= q < finished.len() ==> (#[trigger] finished[q]) is Some,
    decreases finished.len(),
{
    reveal(Seq::filter);
    lemma_open_count_zero(finished);
    if finished.len() > 0 {
        law_open_queries_have_no_result(finished.drop_last(), open);
    }
}

proof fn lemma_follows_prefix(set: Setting, q: int, log: Seq<Seq<Fetch>>, j: int)
    requires
        set.follows(q, log),
        0 <= j < log.len(),
    ensures
        set.follows(q, log.take(j + 1)),
    decreases log.len(),
{
    if j == log.len() - 1 {
        assert(log.take(j + 1) =~= log);
    } else {
        lemma_follows_prefix(set, q, log.drop_last(), j);
        assert(log.drop_last().take(j + 1) =~= log.take(j + 1));
    }
}

/// A query starts at the entry point and goes round by round: the blocks of
/// the frontier are read, each once, and all their neighbors are taken in, in
/// the order of landing. It is settled when its whole pool is expanded.
pub proof fn law_queries_go_round_by_round(set: Setting, q: int, log: Seq<Seq<Fetch>>, j: int)
    requires
        set.wf(),
        set.follows(q, log),
        0 <= j < log.len(),
    ensures
        ({
            let entry = set.meta.medoid;
            let b = set.course(q, log.take(j));
            let n = set.course(q, log.take(j + 1));
            let nbs = lists_of(set.meta, log[j]).flatten();
            &&& set.course(q, log.take(0)) == Beam::seeded(entry, (set.score)(q)(entry))
            &&& b.frontier(set.w).len() > 0
            &&& log[j].len() == b.frontier(set.w).len()
            &&& forall|i: int| 0 <= i < log[j].len() ==> b.frontier(set.w).contains((#[trigger] log[j][i]).node)
            &&& forall|i: int, l: int|
                0 <= i < l < log[j].len() ==> (#[trigger] log[j][i]).node != (#[trigger] log[j][l]).node
            &&& forall|i: int| 0 <= i < nbs.len() ==> #[trigger] nbs[i] < set.points
            &&& n == b.expand(set.w).welcome_all(set.ef, (set.score)(q), nbs)
        }),
        set.settled(q, log) <==> forall|i: int|
            0 <= i < set.course(q, log).pool.len() ==> (#[trigger] set.course(q, log).pool[i]).expanded,
{
    lemma_follows_prefix(set, q, log, j);
    let upto = log.take(j + 1);
    assert(upto.drop_last() =~= log.take(j));
    assert(upto.last() == log[j]);
    let b = set.course(q, log.take(j));
    let round = log[j];
    assert(answers(b.frontier(set.w), round));
    assert forall|i: int| 0 <= i < round.len() implies b.frontier(set.w).contains((#[trigger] log[j][i]).node) by {
        assert(nodes_of(round)[i] == round[i].node);
        assert(nodes_of(round).to_set().contains(round[i].node));
        assert(b.frontier(set.w).to_set().contains(round[i].node));
    }
    assert forall|i: int, l: int| 0 <= i < l < log[j].len() implies (#[trigger] log[j][i]).node != (
    #[trigger] log[j][l]).node by {
        assert(nodes_of(round)[i] != nodes_of(round)[l]);
    }
    assert(log.take(0) =~= Seq::empty());
    lemma_nothing_chosen(set.course(q, log), set.w);
}

} // verus!
