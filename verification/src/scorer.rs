//! Routing-distance abstraction.
//!
//! The beam search only needs *approximately* correct distances to decide
//! where to walk next; exact distances for the returned top-k come from the
//! full-precision vectors inside every disk block the search already reads
//! (rerank). Exact routing over full-precision vectors is the baseline;
//! quantized codebooks shrink routing RAM.

use vstd::prelude::*;

use crate::dataset::FloatVectors;
use crate::distance::{distance_of, l2_sq, steady_step, steady_sum};

verus! {

/// A source of routing distances. The same query and point always give the
/// same distance.
pub trait RouteScorer: Sync {
    /// Whether the query has the right dimension and the point exists.
    open spec fn covers(&self, query: Seq<u32>, id: u32) -> bool {
        true
    }

    /// The distance that [`RouteScorer::score`] gives.
    open spec fn distance(&self, query: Seq<u32>, id: u32) -> u32 {
        arbitrary()
    }

    /// (Possibly approximate) squared L2 between `query` and point `id`.
    fn score(&self, query: &[u32], id: u32) -> (d: u32)
        requires
            self.covers(query@, id),
        ensures
            d == self.distance(query@, id),
    ;

    /// The count that [`RouteScorer::num_points`] reports.
    open spec fn points(&self) -> nat {
        arbitrary()
    }

    /// How many points there are: their ids start at 0.
    fn num_points(&self) -> (n: usize)
        ensures
            n == self.points(),
    ;

    /// The memory that [`RouteScorer::memory_bytes`] reports.
    open spec fn resident(&self) -> usize {
        arbitrary()
    }

    /// Resident memory this scorer keeps, in bytes.
    fn memory_bytes(&self) -> (n: usize)
        ensures
            n == self.resident(),
    ;
}

/// The distances of all points from one query.
pub open spec fn scores<S: RouteScorer>(scorer: &S, query: Seq<u32>) -> spec_fn(u32) -> u32 {
    |id: u32| scorer.distance(query, id)
}

/// The query can be scored against each of the first `n` points.
pub open spec fn covers_all<S: RouteScorer>(scorer: &S, query: Seq<u32>, n: nat) -> bool {
    forall|id: u32| id < n ==> #[trigger] scorer.covers(query, id)
}

/// The query can be scored against each of these points.
pub open spec fn covers_each<S: RouteScorer>(scorer: &S, query: Seq<u32>, ids: Seq<u32>) -> bool {
    forall|i: int| 0 <= i < ids.len() ==> scorer.covers(query, #[trigger] ids[i])
}

/// The query can be scored against all points of a set.
pub open spec fn covers_set<S: RouteScorer>(scorer: &S, query: Seq<u32>, ids: Set<u32>) -> bool {
    forall|id: u32| #[trigger] ids.contains(id) ==> scorer.covers(query, id)
}

/// Exact routing: full-precision vectors in RAM, with the arithmetic of their
/// distance (see [`l2_sq`]).
pub struct ExactScorer<F, P> {
    pub vectors: FloatVectors,
    pub step: F,
    pub plus: P,
}

impl<F: Fn(u32, u32, u32) -> u32 + Sync, P: Fn(u32, u32) -> u32 + Sync> RouteScorer for ExactScorer<F, P> {
    open spec fn covers(&self, query: Seq<u32>, id: u32) -> bool {
        &&& self.vectors.wf()
        &&& query.len() == self.vectors.dim
        &&& id < self.vectors.count
        &&& steady_step(&self.step)
        &&& steady_sum(&self.plus)
    }

    open spec fn distance(&self, query: Seq<u32>, id: u32) -> u32 {
        distance_of(&self.step, &self.plus, query, self.vectors.row(id as int))
    }

    open spec fn points(&self) -> nat {
        self.vectors.count as nat
    }

    open spec fn resident(&self) -> usize {
        self.vectors.count.wrapping_mul(self.vectors.dim).wrapping_mul(4)
    }

    fn score(&self, query: &[u32], id: u32) -> (d: u32) {
        l2_sq(query, self.vectors.get(id as usize), &self.step, &self.plus)
    }

    fn num_points(&self) -> (n: usize) {
        self.vectors.count
    }

    fn memory_bytes(&self) -> (n: usize) {
        self.vectors.count.wrapping_mul(self.vectors.dim).wrapping_mul(4)
    }
}

/// The two ways of routing: over exact vectors, or over quantized codes.
pub enum Scorer<E, Q> {
    Exact(E),
    Sq8(Q),
}

impl<E: RouteScorer, Q: RouteScorer> RouteScorer for Scorer<E, Q> {
    open spec fn covers(&self, query: Seq<u32>, id: u32) -> bool {
        match self {
            Scorer::Exact(v) => v.covers(query, id),
            Scorer::Sq8(c) => c.covers(query, id),
        }
    }

    open spec fn distance(&self, query: Seq<u32>, id: u32) -> u32 {
        match self {
            Scorer::Exact(v) => v.distance(query, id),
            Scorer::Sq8(c) => c.distance(query, id),
        }
    }

    open spec fn points(&self) -> nat {
        match self {
            Scorer::Exact(v) => v.points(),
            Scorer::Sq8(c) => c.points(),
        }
    }

    open spec fn resident(&self) -> usize {
        match self {
            Scorer::Exact(v) => v.resident(),
            Scorer::Sq8(c) => c.resident(),
        }
    }

    fn score(&self, query: &[u32], id: u32) -> (d: u32) {
        match self {
            Scorer::Exact(v) => v.score(query, id),
            Scorer::Sq8(c) => c.score(query, id),
        }
    }

    fn num_points(&self) -> (n: usize) {
        match self {
            Scorer::Exact(v) => v.num_points(),
            Scorer::Sq8(c) => c.num_points(),
        }
    }

    fn memory_bytes(&self) -> (n: usize) {
        match self {
            Scorer::Exact(v) => v.memory_bytes(),
            Scorer::Sq8(c) => c.memory_bytes(),
        }
    }
}

/// Exact routing measures the query against the point's own row, over all its
/// elements; scores the points that there are vectors for; and takes four
/// bytes per element.
pub proof fn law_exact_scorer_goes_by_its_vectors<
    F: Fn(u32, u32, u32) -> u32 + Sync,
    P: Fn(u32, u32) -> u32 + Sync,
>(s: ExactScorer<F, P>, query: Seq<u32>, id: u32)
    requires
        s.vectors.wf(),
    ensures
        s.distance(query, id) == distance_of(
            &s.step,
            &s.plus,
            query,
            s.vectors.data@.subrange(id * s.vectors.dim, (id + 1) * s.vectors.dim),
        ),
        s.points() == s.vectors.count,
        s.covers(query, id) <==> query.len() == s.vectors.dim && id < s.vectors.count && steady_step(&s.step)
            && steady_sum(&s.plus),
        4 * (s.vectors.count * s.vectors.dim) <= usize::MAX ==> s.resident() == 4 * (s.vectors.count * s.vectors.dim),
{
    let elements = s.vectors.count * s.vectors.dim;
    if 4 * elements <= usize::MAX {
        assert(elements >= 0) by (nonlinear_arith)
            requires
                elements == s.vectors.count * s.vectors.dim,
        ;
        vstd::arithmetic::div_mod::lemma_small_mod(elements as nat, (usize::MAX + 1) as nat);
        vstd::arithmetic::div_mod::lemma_small_mod((elements * 4) as nat, (usize::MAX + 1) as nat);
        assert(s.vectors.count.wrapping_mul(s.vectors.dim) == elements);
    }
}

/// Whichever way is chosen, routing is that of the scorer for it.
pub proof fn law_either_scorer_is_itself<E: RouteScorer, Q: RouteScorer>(e: E, c: Q, query: Seq<u32>, id: u32)
    ensures
        Scorer::<E, Q>::Exact(e).distance(query, id) == e.distance(query, id),
        Scorer::<E, Q>::Sq8(c).distance(query, id) == c.distance(query, id),
        Scorer::<E, Q>::Exact(e).covers(query, id) == e.covers(query, id),
        Scorer::<E, Q>::Sq8(c).covers(query, id) == c.covers(query, id),
        Scorer::<E, Q>::Exact(e).points() == e.points(),
        Scorer::<E, Q>::Sq8(c).points() == c.points(),
        Scorer::<E, Q>::Exact(e).resident() == e.resident(),
        Scorer::<E, Q>::Sq8(c).resident() == c.resident(),
{
}

} // verus!
