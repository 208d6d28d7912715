//! The decisions of the HTTP serving layer over the disk index.
//!
//! Startup loads the index header plus one routing scorer: either exact f32
//! vectors or an SQ8 codebook (1/4 RAM; the recommended mode: the
//! full-precision vectors then live only on disk). Search runs the same
//! rerank-always beam search as the benchmarks.

use vstd::prelude::*;
use vstd::string::*;

use crate::beam::Beam;
use crate::disk::{known, one_block_each, DiskIndex, SearchError};
use crate::io::{BlockRead, BlockReader};
use crate::layout::DiskIndexMeta;
use crate::scorer::{covers_all, RouteScorer};
use crate::search::SearchScratch;

verus! {

/// What a request that leaves something open gets.
pub struct SearchDefaults {
    pub k: usize,
    pub ef: usize,
    pub w: usize,
}

/// A search request.
pub struct SearchRequest {
    pub vector: Vec<u32>,
    pub k: Option<usize>,
    pub ef: Option<usize>,
    pub w: Option<usize>,
}

/// The answer to a search request.
pub struct SearchResponse {
    pub ids: Vec<u32>,
    pub distances: Vec<u32>,
    pub reads: usize,
    pub took_us: u128,
}

/// The answer to a health request.
pub struct HealthResponse {
    pub status: &'static str,
    pub vectors: u64,
    pub dim: u32,
    pub routing_memory_bytes: usize,
}

/// The shape of the index, and the memory that routing takes.
pub fn health<S: RouteScorer>(meta: &DiskIndexMeta, scorer: &S) -> (h: HealthResponse)
    ensures
        h.status@ == "ok"@,
        h.vectors == meta.n,
        h.dim == meta.dim,
        h.routing_memory_bytes == scorer.resident(),
{
    HealthResponse {
        status: "ok",
        vectors: meta.n,
        dim: meta.dim,
        routing_memory_bytes: scorer.memory_bytes(),
    }
}

/// Whether a scorer of `count` vectors of `dim` elements fits the index.
pub fn scorer_fits(count: usize, dim: usize, meta: &DiskIndexMeta) -> (b: bool)
    ensures
        b == (count == meta.n && dim == meta.dim),
{
    count as u64 == meta.n && dim as u64 == meta.dim as u64
}

/// How a request is run.
#[derive(Clone, Copy)]
pub struct SearchPlan {
    pub k: usize,
    pub ef: usize,
    pub w: usize,
}

/// What was asked for, or the default.
pub open spec fn asked(value: Option<usize>, default: usize) -> usize {
    match value {
        Some(v) => v,
        None => default,
    }
}

/// How a request is run: at least one result, a pool that holds all results,
/// and between 1 and 64 reads per round.
pub open spec fn planned(req: SearchRequest, defaults: SearchDefaults) -> SearchPlan {
    let k0 = asked(req.k, defaults.k);
    let k = if k0 < 1 { 1 } else { k0 };
    let ef0 = asked(req.ef, defaults.ef);
    let ef = if ef0 < k { k } else { ef0 };
    let w0 = asked(req.w, defaults.w);
    let w = if w0 < 1 { 1 } else if w0 > 64 { 64 } else { w0 };
    SearchPlan { k, ef, w }
}

fn pick(value: Option<usize>, default: usize) -> (v: usize)
    ensures
        v == asked(value, default),
{
    match value {
        Some(v) => v,
        None => default,
    }
}

/// How a request is run. A vector of another dimension than the index is
/// refused, and its length returned.
pub fn plan_search(req: &SearchRequest, dim: u32, defaults: &SearchDefaults) -> (r: Result<SearchPlan, usize>)
    ensures
        req.vector@.len() != dim ==> r is Err && r->Err_0 == req.vector@.len(),
        req.vector@.len() == dim ==> r == Ok::<SearchPlan, usize>(planned(*req, *defaults)),
{
    if req.vector.len() as u64 != dim as u64 {
        return Err(req.vector.len());
    }
    let k0: usize = pick(req.k, defaults.k);
    let k: usize = if k0 < 1 { 1 } else { k0 };
    let ef0: usize = pick(req.ef, defaults.ef);
    let ef: usize = if ef0 < k { k } else { ef0 };
    let w0: usize = pick(req.w, defaults.w);
    let w: usize = if w0 < 1 { 1 } else if w0 > 64 { 64 } else { w0 };
    Ok(SearchPlan { k, ef, w })
}

/// A plan can always be run: there is something to return, room for it, and
/// something to read.
pub proof fn law_plans_can_run(req: SearchRequest, defaults: SearchDefaults)
    ensures
        planned(req, defaults).k >= 1,
        planned(req, defaults).ef >= planned(req, defaults).k,
        1 <= planned(req, defaults).w <= 64,
{
}

/// A plan honors what the request asks for, as far as it is in bounds: the
/// number of results, if there is to be one; the pool, if it holds the
/// results; and the reads per round, between 1 and 64. What is asked for in
/// one field does not bear on the others, but that the pool has to hold the
/// results. A field that is left open gets its default, and out of bounds
/// the nearest bound.
pub proof fn law_plans_honor_requests(req: SearchRequest, defaults: SearchDefaults)
    ensures
        ({
            let plan = planned(req, defaults);
            &&& req.k is Some && req.k->Some_0 >= 1 ==> plan.k == req.k->Some_0
            &&& req.k is Some && req.k->Some_0 == 0 ==> plan.k == 1
            &&& req.k is None && defaults.k >= 1 ==> plan.k == defaults.k
            &&& req.k is None && defaults.k == 0 ==> plan.k == 1
            &&& req.ef is Some && req.ef->Some_0 >= plan.k ==> plan.ef == req.ef->Some_0
            &&& req.ef is Some && req.ef->Some_0 < plan.k ==> plan.ef == plan.k
            &&& req.ef is None && defaults.ef >= plan.k ==> plan.ef == defaults.ef
            &&& req.ef is None && defaults.ef < plan.k ==> plan.ef == plan.k
            &&& req.w is Some && 1 <= req.w->Some_0 <= 64 ==> plan.w == req.w->Some_0
            &&& req.w is Some && req.w->Some_0 < 1 ==> plan.w == 1
            &&& req.w is Some && req.w->Some_0 > 64 ==> plan.w == 64
            &&& req.w is None && 1 <= defaults.w <= 64 ==> plan.w == defaults.w
            &&& req.w is None && defaults.w < 1 ==> plan.w == 1
            &&& req.w is None && defaults.w > 64 ==> plan.w == 64
        }),
{
}

/// A request that names everything within bounds is answered by a search for
/// its own vector with just these settings, and fails only as that search
/// does.
pub proof fn law_requests_get_what_they_ask_for<R: BlockReader, S: RouteScorer, M: Fn(&[u32], &[u32]) -> u32>(
    index: &DiskIndex<R>,
    scorer: &S,
    metric: &M,
    defaults: SearchDefaults,
    req: SearchRequest,
    end: Beam,
    top: Seq<(u32, u32)>,
    reads: usize,
    n: nat,
    node: u32,
    e: R::Error,
)
    requires
        req.k is Some,
        req.ef is Some,
        req.w is Some,
        1 <= req.k->Some_0 <= req.ef->Some_0,
        1 <= req.w->Some_0 <= 64,
    ensures
        ({
            let k = req.k->Some_0 as nat;
            let ef = req.ef->Some_0 as nat;
            let w = req.w->Some_0 as nat;
            &&& served(index, scorer, metric, defaults, req, end, top, reads) <==> index.finds(
                scorer,
                metric,
                req.vector@,
                k,
                ef,
                w,
                end,
                top,
                reads as nat,
            )
            &&& search_failed(index, scorer, defaults, req, n, SearchError::CorruptNode { node }) <==> index.asks_for(
                scorer,
                req.vector@,
                ef,
                w,
                node,
            ) && index.corrupt(node, n)
            &&& search_failed(index, scorer, defaults, req, n, SearchError::Read(e)) <==> index.unreadable(
                scorer,
                req.vector@,
                ef,
                w,
                e,
            )
        }),
{
}

/// Lays out results for the answer.
pub fn respond(results: &Vec<(u32, u32)>, reads: usize, took_us: u128) -> (resp: SearchResponse)
    ensures
        resp.ids@ == Seq::new(results@.len(), |i: int| results@[i].1),
        resp.distances@ == Seq::new(results@.len(), |i: int| results@[i].0),
        resp.reads == reads,
        resp.took_us == took_us,
{
    let mut ids: Vec<u32> = Vec::new();
    let mut distances: Vec<u32> = Vec::new();
    let mut i: usize = 0;
    while i < results.len()
        invariant
            i <= results@.len(),
            ids@ == Seq::new(i as nat, |i: int| results@[i].1),
            distances@ == Seq::new(i as nat, |i: int| results@[i].0),
        decreases results@.len() - i,
    {
        distances.push(results[i].0);
        ids.push(results[i].1);
        i += 1;
        assert(ids@ =~= Seq::new(i as nat, |i: int| results@[i].1));
        assert(distances@ =~= Seq::new(i as nat, |i: int| results@[i].0));
    }
    SearchResponse { ids, distances, reads, took_us }
}

/// Why a search request has no results.
#[derive(Debug)]
pub enum ServeError<E> {
    /// The vector has this many elements, and the index another dimension:
    /// the request is at fault.
    WrongDimension { len: usize },
    /// The search failed.
    Search(SearchError<E>),
}

/// Runs a search request against the index.
pub fn serve<R: BlockReader, S: RouteScorer, M: Fn(&[u32], &[u32]) -> u32>(
    index: &DiskIndex<R>,
    scorer: &S,
    metric: &M,
    defaults: &SearchDefaults,
    req: &SearchRequest,
    scratch: &mut SearchScratch,
    io_bufs: &mut Vec<BlockRead>,
) -> (r: Result<(Vec<(u32, u32)>, usize), ServeError<R::Error>>)
    requires
        index.wf(),
        old(scratch).wf(),
        req.vector@.len() == index.meta.dim ==> index.meta.medoid < known(scorer, old(scratch)) && covers_all(
            scorer,
            req.vector@,
            scorer.points(),
        ),
        forall|a: &[u32], b: &[u32]| a@.len() == b@.len() ==> #[trigger] call_requires(*metric, (a, b)),
    ensures
        final(scratch).wf(),
        final(scratch).nodes() == old(scratch).nodes(),
        req.vector@.len() != index.meta.dim <==> r is Err && r->Err_0 is WrongDimension,
        r is Err && r->Err_0 is WrongDimension ==> r->Err_0->len == req.vector@.len(),
        r is Ok ==> served(index, scorer, metric, *defaults, *req, final(scratch)@, r->Ok_0.0@, r->Ok_0.1),
        r is Ok ==> final(scratch)@.below(known(scorer, old(scratch))),
        r matches Err(ServeError::Search(e)) ==> search_failed(
            index,
            scorer,
            *defaults,
            *req,
            known(scorer, old(scratch)),
            e,
        ),
        req.vector@.len() == index.meta.dim ==> one_block_each(final(io_bufs)@),
        req.vector@.len() != index.meta.dim ==> final(scratch)@ == old(scratch)@ && final(io_bufs)@ == old(io_bufs)@,
{
    let plan: SearchPlan = match plan_search(req, index.meta.dim, defaults) {
        Ok(plan) => plan,
        Err(len) => {
            return Err(ServeError::WrongDimension { len });
        },
    };
    let found = index.search(
        scorer,
        metric,
        req.vector.as_slice(),
        plan.k,
        plan.ef,
        plan.w,
        scratch,
        io_bufs,
    );
    match found {
        Ok((top, reads)) => {
            assert(served(index, scorer, metric, *defaults, *req, scratch@, top@, reads));
            Ok((top, reads))
        },
        Err(e) => {
            assert(search_failed(index, scorer, *defaults, *req, known(scorer, old(scratch)), e));
            Err(ServeError::Search(e))
        },
    }
}

/// A request was answered by the search that it plans.
pub open spec fn served<R: BlockReader, S: RouteScorer, M: Fn(&[u32], &[u32]) -> u32>(
    index: &DiskIndex<R>,
    scorer: &S,
    metric: &M,
    defaults: SearchDefaults,
    req: SearchRequest,
    end: Beam,
    top: Seq<(u32, u32)>,
    reads: usize,
) -> bool {
    let plan = planned(req, defaults);
    index.finds(
        scorer,
        metric,
        req.vector@,
        plan.k as nat,
        plan.ef as nat,
        plan.w as nat,
        end,
        top,
        reads as nat,
    )
}

/// The search that a request plans may fail with `e`, where `n` ids are known:
/// it may ask for a block that cannot be read, or that names an unknown id.
pub open spec fn search_failed<R: BlockReader, S: RouteScorer>(
    index: &DiskIndex<R>,
    scorer: &S,
    defaults: SearchDefaults,
    req: SearchRequest,
    n: nat,
    e: SearchError<R::Error>,
) -> bool {
    let plan = planned(req, defaults);
    match e {
        SearchError::CorruptNode { node } => index.asks_for(scorer, req.vector@, plan.ef as nat, plan.w as nat, node)
            && index.corrupt(node, n),
        SearchError::Read(e) => index.unreadable(scorer, req.vector@, plan.ef as nat, plan.w as nat, e),
    }
}

/// How queries are routed.
#[derive(Debug, Clone, Copy, PartialEq, Eq)]
pub enum Routing {
    /// Over the base vectors.
    Exact,
    /// Over a codebook.
    Sq8,
}

/// Why no routing can be set up.
#[derive(Debug, Clone, Copy, PartialEq, Eq)]
pub enum RoutingError {
    /// Exact routing needs the base vectors.
    MissingBase,
    /// SQ8 routing needs a codebook.
    MissingCodes,
    /// No such routing.
    Unknown,
}

fn same_text(a: &str, b: &str) -> (same: bool)
    ensures
        same == (a@ == b@),
{
    let n: usize = a.unicode_len();
    if n != b.unicode_len() {
        return false;
    }
    let mut i: usize = 0;
    while i < n
        invariant
            i <= n,
            n == a@.len(),
            n == b@.len(),
            forall|j: int| 0 <= j < i ==> a@[j] == b@[j],
        decreases n - i,
    {
        if a.get_char(i) != b.get_char(i) {
            return false;
        }
        i += 1;
    }
    assert(a@ =~= b@);
    true
}

/// The routing of that name, if the file that it needs is given.
pub fn load_scorer(routing: &str, has_base: bool, has_codes: bool) -> (r: Result<Routing, RoutingError>)
    ensures
        r == (if routing@ == "exact"@ {
            if has_base {
                Ok(Routing::Exact)
            } else {
                Err(RoutingError::MissingBase)
            }
        } else if routing@ == "sq8"@ {
            if has_codes {
                Ok(Routing::Sq8)
            } else {
                Err(RoutingError::MissingCodes)
            }
        } else {
            Err(RoutingError::Unknown)
        }),
{
    if same_text(routing, "exact") {
        if has_base {
            Ok(Routing::Exact)
        } else {
            Err(RoutingError::MissingBase)
        }
    } else if same_text(routing, "sq8") {
        if has_codes {
            Ok(Routing::Sq8)
        } else {
            Err(RoutingError::MissingCodes)
        }
    } else {
        Err(RoutingError::Unknown)
    }
}

/// A request whose vector has the dimension of the index gets the `k`, the
/// pool and the width that it asks for, as far as they are in bounds, and the
/// defaults for what it leaves open. Any other request is refused.
pub proof fn law_planning_honors_requests(
    req: &SearchRequest,
    dim: u32,
    defaults: &SearchDefaults,
    r: Result<SearchPlan, usize>,
)
    requires
        call_ensures(plan_search, (req, dim, defaults), r),
    ensures
        req.vector@.len() != dim <==> r is Err,
        r matches Err(len) ==> len == req.vector@.len(),
        r matches Ok(plan) ==> {
            &&& req.k is Some && req.k->Some_0 >= 1 ==> plan.k == req.k->Some_0
            &&& req.k is None && defaults.k >= 1 ==> plan.k == defaults.k
            &&& req.ef is Some && req.ef->Some_0 >= plan.k ==> plan.ef == req.ef->Some_0
            &&& req.ef is None && defaults.ef >= plan.k ==> plan.ef == defaults.ef
            &&& req.w is Some && 1 <= req.w->Some_0 <= 64 ==> plan.w == req.w->Some_0
            &&& req.w is None && 1 <= defaults.w <= 64 ==> plan.w == defaults.w
            &&& plan.k >= 1 && plan.ef >= plan.k && 1 <= plan.w <= 64
        },
{
    law_plans_honor_requests(*req, *defaults);
    law_plans_can_run(*req, *defaults);
}

/// An answer has the results in order, each with its id and its distance, and
/// the number of reads.
pub proof fn law_answers_list_all_results(
    results: &Vec<(u32, u32)>,
    reads: usize,
    took_us: u128,
    resp: SearchResponse,
    i: int,
)
    requires
        call_ensures(respond, (results, reads, took_us), resp),
    ensures
        resp.ids@.len() == results@.len() && resp.distances@.len() == results@.len(),
        0 <= i < results@.len() ==> (resp.distances@[i], resp.ids@[i]) == results@[i],
        resp.reads == reads && resp.took_us == took_us,
{
}

/// A scorer fits an index exactly if it has as many vectors, of the same
/// dimension.
pub proof fn law_fitting_scorers_have_the_shape(count: usize, dim: usize, meta: &DiskIndexMeta, b: bool)
    requires
        call_ensures(scorer_fits, (count, dim, meta), b),
    ensures
        b <==> count == meta.n && dim == meta.dim,
{
}

/// A routing is known by its name, and needs its own file and no other.
pub proof fn law_routings_need_their_files(
    routing: &str,
    has_base: bool,
    has_codes: bool,
    r: Result<Routing, RoutingError>,
)
    requires
        call_ensures(load_scorer, (routing, has_base, has_codes), r),
    ensures
        r == Ok::<Routing, RoutingError>(Routing::Exact) <==> routing@ == "exact"@ && has_base,
        r == Ok::<Routing, RoutingError>(Routing::Sq8) <==> routing@ == "sq8"@ && has_codes,
        r == Err::<Routing, RoutingError>(RoutingError::MissingBase) <==> routing@ == "exact"@ && !has_base,
        r == Err::<Routing, RoutingError>(RoutingError::MissingCodes) <==> routing@ == "sq8"@ && !has_codes,
        r == Err::<Routing, RoutingError>(RoutingError::Unknown) <==> routing@ != "exact"@ && routing@ != "sq8"@,
{
    reveal_strlit("exact");
    reveal_strlit("sq8");
    assert("exact"@.len() != "sq8"@.len());
}

} // verus!
