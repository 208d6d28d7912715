//! The pipelined search against the batched one.
//!
//! A query in the pipeline keeps the rounds of the batched search, but the
//! blocks of a round may land in any order. Where they land in the order of
//! the requests, or where no two distances tie, that makes no difference:
//! same results, same read counts.

use vstd::prelude::*;

use crate::beam::{
    distinct_on, in_range, law_one_graph_one_search, lemma_absorb_flatten, lemma_absorb_lists,
    lemma_absorb_lists_selects, lemma_distinct_subset, lemma_expand, lemma_run_below, lemma_run_selects,
    lemma_same_pool, lemma_seeded, lemma_welcome_all, lemma_welcome_expanded, lemma_welcome_is_absorb, lists_in_range,
    lists_set, numbers_on, Beam,
};
use crate::bits::{is_nan, position};
use crate::dataset::FloatVectors;
use crate::disk::{
    holds_file, law_written_node_reads_back, lists_of, measures, packable, reranked, DiskIndex, Fetch,
};
use crate::graph::VamanaGraph;
use crate::io::BlockReader;
use crate::layout::{index_file, index_meta};
use crate::pipeline::{outcome, Run};
use crate::schedule::{
    answers, lemma_course, lemma_course_reads, lemma_frontier_distinct, log_vouched, neighbors_in, nodes_of,
    round_vouched, Schedule, Setting,
};
use crate::scorer::{scores, RouteScorer};
use crate::select::{lemma_selects_unique, lemma_subset_len, tie_free};
use crate::topk::{kept, lemma_kept_offered, lemma_kept_selects, pair_set};

verus! {

/// The lists of a frontier, in its order.
pub open spec fn frontier_lists(graph: spec_fn(u32) -> Seq<u32>, frontier: Seq<u32>) -> Seq<Seq<u32>> {
    Seq::new(frontier.len(), |i: int| graph(frontier[i]))
}

/// The rounds of a query, each with its lists in the order of the requests.
pub open spec fn requested_rounds(
    set: Setting,
    q: int,
    graph: spec_fn(u32) -> Seq<u32>,
    log: Seq<Seq<Fetch>>,
) -> Seq<Seq<Seq<u32>>>
    decreases log.len(),
{
    if log.len() == 0 {
        Seq::empty()
    } else {
        requested_rounds(set, q, graph, log.drop_last()).push(
            frontier_lists(graph, set.course(q, log.drop_last()).frontier(set.w)),
        )
    }
}

/// Every block that was read holds the neighbors that the graph has.
pub open spec fn reads_graph(set: Setting, graph: spec_fn(u32) -> Seq<u32>, log: Seq<Seq<Fetch>>) -> bool {
    forall|j: int, i: int|
        0 <= j < log.len() && 0 <= i < log[j].len() ==> set.meta.list_in(
            (#[trigger] log[j][i]).block,
            log[j][i].node,
        ) == graph(log[j][i].node)
}

/// In every round the blocks landed in the order of the requests.
pub open spec fn in_request_order(set: Setting, q: int, log: Seq<Seq<Fetch>>) -> bool
    decreases log.len(),
{
    log.len() == 0 || (in_request_order(set, q, log.drop_last()) && nodes_of(log.last()) == set.course(
        q,
        log.drop_last(),
    ).frontier(set.w))
}

/// One round, read in the order of the requests.
proof fn lemma_round_in_order(
    set: Setting,
    q: int,
    graph: spec_fn(u32) -> Seq<u32>,
    b: Beam,
    round: Seq<Fetch>,
)
    requires
        nodes_of(round) == b.frontier(set.w),
        forall|i: int|
            0 <= i < round.len() ==> set.meta.list_in((#[trigger] round[i]).block, round[i].node) == graph(
                round[i].node,
            ),
    ensures
        lists_of(set.meta, round) == frontier_lists(graph, b.frontier(set.w)),
{
    let f = b.frontier(set.w);
    assert(round.len() == f.len()) by {
        assert(nodes_of(round).len() == round.len());
    }
    assert forall|i: int| 0 <= i < round.len() implies lists_of(set.meta, round)[i] == frontier_lists(graph, f)[i] by {
        assert(nodes_of(round)[i] == round[i].node);
    }
    assert(lists_of(set.meta, round) =~= frontier_lists(graph, f));
}

/// One round, read in any order: the same neighbors come in.
proof fn lemma_round_any_order(
    set: Setting,
    graph: spec_fn(u32) -> Seq<u32>,
    b: Beam,
    round: Seq<Fetch>,
)
    requires
        answers(b.frontier(set.w), round),
        forall|i: int|
            0 <= i < round.len() ==> set.meta.list_in((#[trigger] round[i]).block, round[i].node) == graph(
                round[i].node,
            ),
    ensures
        lists_set(lists_of(set.meta, round)) == lists_set(frontier_lists(graph, b.frontier(set.w))),
{
    let f = b.frontier(set.w);
    let x = lists_of(set.meta, round);
    let y = frontier_lists(graph, f);
    assert forall|id: u32| lists_set(x).contains(id) implies lists_set(y).contains(id) by {
        let i = choose|i: int| 0 <= i < x.len() && (#[trigger] x[i]).contains(id);
        let node = round[i].node;
        assert(nodes_of(round)[i] == node);
        assert(nodes_of(round).to_set().contains(node));
        assert(f.to_set().contains(node));
        let k = choose|k: int| 0 <= k < f.len() && f[k] == node;
        assert(y[k] == graph(node));
        assert(y[k].contains(id));
    }
    assert forall|id: u32| lists_set(y).contains(id) implies lists_set(x).contains(id) by {
        let k = choose|k: int| 0 <= k < y.len() && (#[trigger] y[k]).contains(id);
        assert(f.to_set().contains(f[k]));
        assert(nodes_of(round).to_set().contains(f[k]));
        let i = choose|i: int| 0 <= i < nodes_of(round).len() && nodes_of(round)[i] == f[k];
        assert(x[i] == graph(f[k]));
        assert(x[i].contains(id));
    }
    assert(lists_set(x) =~= lists_set(y));
}

/// The course of a query is that of the batched search.
proof fn lemma_course_is_run(
    set: Setting,
    q: int,
    graph: spec_fn(u32) -> Seq<u32>,
    log: Seq<Seq<Fetch>>,
    ordered: bool,
)
    requires
        set.wf(),
        set.meta.medoid < set.meta.n,
        set.follows(q, log),
        reads_graph(set, graph, log),
        forall|id: u32| id < set.meta.n ==> in_range(#[trigger] graph(id), set.meta.n as nat),
        numbers_on((set.score)(q), set.course(q, log).visited),
        ordered ==> in_request_order(set, q, log),
        !ordered ==> distinct_on((set.score)(q), set.course(q, log).visited),
    ensures
        ({
            let rounds = requested_rounds(set, q, graph, log);
            let answer = |id: u32, l: Seq<u32>| l == graph(id);
            &&& set.start(q).trace(set.ef, set.w, (set.score)(q), rounds, answer)
            &&& set.start(q).run(set.ef, set.w, (set.score)(q), rounds) == set.course(q, log)
            &&& rounds.len() == log.len()
            &&& forall|j: int| 0 <= j < rounds.len() ==> lists_in_range(#[trigger] rounds[j], set.meta.n as nat)
        }),
    decreases log.len(),
{
    let n = set.meta.n as nat;
    let score = (set.score)(q);
    let start = set.start(q);
    let rounds = requested_rounds(set, q, graph, log);
    let answer = |id: u32, l: Seq<u32>| l == graph(id);
    if log.len() > 0 {
        let init = log.drop_last();
        let round = log.last();
        assert forall|j: int, i: int| 0 <= j < init.len() && 0 <= i < init[j].len() implies set.meta.list_in(
            (#[trigger] init[j][i]).block,
            init[j][i].node,
        ) == graph(init[j][i].node) by {
            assert(init[j] == log[j]);
            assert(log[j][i] == init[j][i]);
        }
        let b = set.course(q, init);
        let e = b.expand(set.w);
        let all = set.course(q, log).visited;
        lemma_welcome_expanded(e, set.ef, score, neighbors_in(set.meta, round));
        assert(b.visited.subset_of(all));
        if !ordered {
            lemma_distinct_subset(score, b.visited, all);
        }
        lemma_course_is_run(set, q, graph, init, ordered);
        lemma_course(set, q, init);
        lemma_seeded(set.meta.medoid, score(set.meta.medoid), score);
        lemma_run_below(start, set.ef, set.w, score, requested_rounds(set, q, graph, init), n);
        let f = b.frontier(set.w);
        let y = frontier_lists(graph, f);
        let x = lists_of(set.meta, round);
        assert(rounds.drop_last() =~= requested_rounds(set, q, graph, init));
        assert(rounds.last() == y);
        lemma_frontier_distinct(b, set.w);
        assert forall|i: int| 0 <= i < y.len() implies in_range(#[trigger] y[i], n) by {
            assert(b.visited.contains(f[i]));
            assert(y[i] == graph(f[i]));
        }
        lemma_expand(b, set.w);
        assert forall|i: int| 0 <= i < round.len() implies set.meta.list_in(
            (#[trigger] round[i]).block,
            round[i].node,
        ) == graph(round[i].node) by {
            assert(log[log.len() - 1][i] == round[i]);
        }
        assert(e.below(n));
        lemma_welcome_is_absorb(e, set.ef, score, neighbors_in(set.meta, round));
        lemma_absorb_flatten(e, set.ef, score, x);
        if ordered {
            lemma_round_in_order(set, q, graph, b, round);
        } else {
            lemma_round_any_order(set, graph, b, round);
            lemma_absorb_lists(e, set.ef, score, x);
            lemma_absorb_lists(e, set.ef, score, y);
            lemma_run_selects(set.meta.medoid, set.ef, set.w, score, requested_rounds(set, q, graph, init));
            lemma_absorb_lists_selects(e, set.ef, score, x);
            lemma_absorb_lists_selects(e, set.ef, score, y);
            lemma_same_pool(e.absorb_lists(set.ef, score, x), e.absorb_lists(set.ef, score, y), set.ef, score);
        }
        assert(b.answered(set.w, y, answer));
        assert forall|j: int| 0 <= j < rounds.len() implies lists_in_range(#[trigger] rounds[j], n) by {
            if j < rounds.len() - 1 {
                assert(rounds.drop_last()[j] == rounds[j]);
            }
        }
    }
}

/// The nodes of a list of pairs.
pub open spec fn pair_ids(pairs: Seq<(u32, u32)>) -> Seq<u32> {
    Seq::new(pairs.len(), |i: int| pairs[i].1)
}

/// Blocks that landed in the order of the requests landed in the order of
/// expansion.
proof fn lemma_nodes_in_order(set: Setting, q: int, log: Seq<Seq<Fetch>>)
    requires
        set.follows(q, log),
        in_request_order(set, q, log),
    ensures
        nodes_of(log.flatten()) == pair_ids(set.course(q, log).expanded),
    decreases log.len(),
{
    let all = set.course(q, log).expanded;
    if log.len() == 0 {
        assert(nodes_of(log.flatten()) =~= pair_ids(all));
    } else {
        let init = log.drop_last();
        let b = set.course(q, init);
        lemma_nodes_in_order(set, q, init);
        init.lemma_flatten_push(log.last());
        assert(init.push(log.last()) =~= log);
        lemma_welcome_expanded(
            b.expand(set.w),
            set.ef,
            (set.score)(q),
            neighbors_in(set.meta, log.last()),
        );
        assert(nodes_of(log.flatten()) =~= nodes_of(init.flatten()) + nodes_of(log.last()));
        assert(pair_ids(all) =~= pair_ids(b.expanded) + b.frontier(set.w));
    }
}

/// The block of every expanded node landed.
proof fn lemma_nodes_any_order(set: Setting, q: int, log: Seq<Seq<Fetch>>)
    requires
        set.follows(q, log),
    ensures
        forall|i: int|
            0 <= i < set.course(q, log).expanded.len() ==> nodes_of(log.flatten()).contains(
                (#[trigger] set.course(q, log).expanded[i]).1,
            ),
    decreases log.len(),
{
    let all = set.course(q, log).expanded;
    if log.len() > 0 {
        let init = log.drop_last();
        let round = log.last();
        let b = set.course(q, init);
        let f = b.frontier(set.w);
        lemma_nodes_any_order(set, q, init);
        init.lemma_flatten_push(round);
        assert(init.push(round) =~= log);
        lemma_welcome_expanded(b.expand(set.w), set.ef, (set.score)(q), neighbors_in(set.meta, round));
        let nodes = nodes_of(log.flatten());
        assert(nodes =~= nodes_of(init.flatten()) + nodes_of(round));
        assert forall|i: int| 0 <= i < all.len() implies nodes.contains((#[trigger] all[i]).1) by {
            if i < b.expanded.len() {
                assert(all[i] == b.expanded[i]);
                let k = choose|k: int| 0 <= k < nodes_of(init.flatten()).len() && nodes_of(init.flatten())[k]
                    == all[i].1;
                assert(nodes[k] == all[i].1);
            } else {
                let j = i - b.expanded.len();
                assert(all[i].1 == f[j]);
                assert(f.to_set().contains(f[j]));
                assert(nodes_of(round).to_set().contains(f[j]));
                let k = choose|k: int| 0 <= k < nodes_of(round).len() && nodes_of(round)[k] == f[j];
                assert(nodes[nodes_of(init.flatten()).len() + k] == f[j]);
            }
        }
    }
}

/// Every block was read from the index, and its vector measured.
pub open spec fn read_and_measured<R: BlockReader, M: Fn(&[u32], &[u32]) -> u32>(
    index: &DiskIndex<R>,
    metric: &M,
    query: Seq<u32>,
    log: Seq<Seq<Fetch>>,
) -> bool {
    forall|j: int, i: int|
        0 <= j < log.len() && 0 <= i < log[j].len() ==> index.fetches((#[trigger] log[j][i]).node, log[j][i].block)
            && measures(metric, query, index.meta.vector_in(log[j][i].block, log[j][i].node), log[j][i].dist)
}

/// A block was read from the index for query `q`, and its vector measured.
pub open spec fn genuine<R: BlockReader, M: Fn(&[u32], &[u32]) -> u32>(
    index: &DiskIndex<R>,
    metric: &M,
    queries: &FloatVectors,
) -> spec_fn(int, Fetch) -> bool {
    |q: int, f: Fetch|
        index.fetches(f.node, f.block) && measures(
            metric,
            queries.row(q),
            index.meta.vector_in(f.block, f.node),
            f.dist,
        )
}

/// Where every block that landed was genuine, every distance that the
/// pipeline returns is exact: it is the metric's, for the query and the vector
/// that was read for the returned node.
pub proof fn law_pipeline_distances_are_exact<R: BlockReader, M: Fn(&[u32], &[u32]) -> u32>(
    index: &DiskIndex<R>,
    metric: &M,
    queries: &FloatVectors,
    p: Schedule,
    k: nat,
    q: int,
    j: int,
)
    requires
        k > 0,
        p.vouched(genuine(index, metric, queries)),
        0 <= q < p.finished.len(),
        p.finished[q] is Some,
        0 <= j < outcome(k, p.finished[q]->Some_0).0.len(),
    ensures
        ({
            let e = outcome(k, p.finished[q]->Some_0).0[j];
            exists|block: Seq<u8>| #[trigger]
                index.fetches(e.1, block) && measures(metric, queries.row(q), index.meta.vector_in(block, e.1), e.0)
        }),
{
    let log = p.finished[q]->Some_0;
    let good = genuine(index, metric, queries);
    let all = log.flatten();
    lemma_kept_offered(reranked(all), k);
    let e = outcome(k, log).0[j];
    assert(reranked(all).contains(e));
    let i = choose|i: int| 0 <= i < reranked(all).len() && reranked(all)[i] == e;
    lemma_flatten_vouched(log, q, good);
    assert(good(q, all[i]));
    assert(index.fetches(e.1, all[i].block));
}

/// Where every block that landed was genuine, every block that a finished
/// query got was read from the index, and its vector measured.
pub proof fn law_finished_queries_are_measured<R: BlockReader, M: Fn(&[u32], &[u32]) -> u32>(
    index: &DiskIndex<R>,
    metric: &M,
    queries: &FloatVectors,
    p: Schedule,
    q: int,
)
    requires
        p.vouched(genuine(index, metric, queries)),
        0 <= q < p.finished.len(),
        p.finished[q] is Some,
    ensures
        read_and_measured(index, metric, queries.row(q), p.finished[q]->Some_0),
{
    let log = p.finished[q]->Some_0;
    let good = genuine(index, metric, queries);
    assert forall|j: int, i: int| 0 <= j < log.len() && 0 <= i < log[j].len() implies index.fetches(
        (#[trigger] log[j][i]).node,
        log[j][i].block,
    ) && measures(
        metric,
        queries.row(q),
        index.meta.vector_in(log[j][i].block, log[j][i].node),
        log[j][i].dist,
    ) by {
        assert(round_vouched(log[j], q, good));
        assert(good(q, log[j][i]));
    }
}

/// What is good of the rounds is good of all that was read in them.
proof fn lemma_flatten_vouched(log: Seq<Seq<Fetch>>, q: int, good: spec_fn(int, Fetch) -> bool)
    requires
        log_vouched(log, q, good),
    ensures
        round_vouched(log.flatten(), q, good),
    decreases log.len(),
{
    if log.len() > 0 {
        let init = log.drop_last();
        assert forall|j: int| 0 <= j < init.len() implies round_vouched(#[trigger] init[j], q, good) by {
            assert(init[j] == log[j]);
        }
        lemma_flatten_vouched(init, q, good);
        init.lemma_flatten_push(log.last());
        assert(init.push(log.last()) =~= log);
        assert(round_vouched(log[log.len() - 1], q, good));
        assert forall|i: int| 0 <= i < log.flatten().len() implies good(q, #[trigger] log.flatten()[i]) by {
            if i < init.flatten().len() {
                assert(log.flatten()[i] == init.flatten()[i]);
            } else {
                assert(log.flatten()[i] == log.last()[i - init.flatten().len()]);
            }
        }
    }
}

/// Lists in range make one list in range.
proof fn lemma_flatten_in_range(lists: Seq<Seq<u32>>, n: nat)
    requires
        lists_in_range(lists, n),
    ensures
        in_range(lists.flatten(), n),
    decreases lists.len(),
{
    if lists.len() > 0 {
        let init = lists.drop_last();
        lemma_flatten_in_range(init, n);
        init.lemma_flatten_push(lists.last());
        assert(init.push(lists.last()) =~= lists);
        assert forall|i: int| 0 <= i < lists.flatten().len() implies #[trigger] lists.flatten()[i] < n by {
            if i < init.flatten().len() {
                assert(init.flatten()[i] < n);
            } else {
                assert(lists[lists.len() - 1][i - init.flatten().len()] < n);
            }
        }
    }
}

/// Every block of a query holds what was written, and every distance is the
/// exact one.
proof fn lemma_log_is_exact<R: BlockReader, M: Fn(&[u32], &[u32]) -> u32>(
    index: &DiskIndex<R>,
    base: FloatVectors,
    graph: VamanaGraph,
    metric: &M,
    query: Seq<u32>,
    exact: spec_fn(u32) -> u32,
    set: Setting,
    q: int,
    log: Seq<Seq<Fetch>>,
)
    requires
        set.wf(),
        set.meta == index.meta,
        packable(base, graph),
        holds_file(&index.reader, index_file(base, graph)),
        index.meta == index_meta(base, graph),
        set.follows(q, log),
        read_and_measured(index, metric, query, log),
        forall|id: u32, d: u32|
            id < base.count && #[trigger] measures(metric, query, base.row(id as int), d) ==> d == exact(id),
    ensures
        reads_graph(set, |id: u32| graph.list(id as int), log),
        set.course(q, log).below(base.count as nat),
        forall|i: int|
            0 <= i < log.flatten().len() ==> (#[trigger] log.flatten()[i]).dist == exact(log.flatten()[i].node)
                && log.flatten()[i].node < base.count,
    decreases log.len(),
{
    let lists = |id: u32| graph.list(id as int);
    if log.len() > 0 {
        let init = log.drop_last();
        let round = log.last();
        assert forall|j: int, i: int| 0 <= j < init.len() && 0 <= i < init[j].len() implies index.fetches(
            (#[trigger] init[j][i]).node,
            init[j][i].block,
        ) && measures(
            metric,
            query,
            index.meta.vector_in(init[j][i].block, init[j][i].node),
            init[j][i].dist,
        ) by {
            assert(init[j] == log[j]);
            assert(log[j][i] == init[j][i]);
        }
        lemma_log_is_exact(index, base, graph, metric, query, exact, set, q, init);
        let b = set.course(q, init);
        let f = b.frontier(set.w);
        lemma_course(set, q, init);
        lemma_frontier_distinct(b, set.w);
        assert forall|i: int| 0 <= i < round.len() implies (#[trigger] round[i]).node < base.count && round[i].dist
            == exact(round[i].node) && set.meta.list_in(round[i].block, round[i].node) == lists(round[i].node) by {
            let r = round[i];
            assert(nodes_of(round)[i] == r.node);
            assert(nodes_of(round).to_set().contains(r.node));
            assert(f.to_set().contains(r.node));
            let k = choose|k: int| 0 <= k < f.len() && f[k] == r.node;
            assert(b.visited.contains(f[k]));
            assert(log[log.len() - 1][i] == r);
            law_written_node_reads_back(index, base, graph, r.node, r.block);
            assert(measures(metric, query, base.row(r.node as int), r.dist));
        }
        assert forall|i: int| 0 <= i < round.len() implies in_range(
            #[trigger] lists_of(set.meta, round)[i],
            base.count as nat,
        ) by {
            assert(in_range(graph.list(round[i].node as int), base.count as nat));
        }
        lemma_flatten_in_range(lists_of(set.meta, round), base.count as nat);
        lemma_expand(b, set.w);
        lemma_welcome_all(
            b.expand(set.w),
            set.ef,
            (set.score)(q),
            neighbors_in(set.meta, round),
            base.count as nat,
        );
        assert forall|j: int, i: int| 0 <= j < log.len() && 0 <= i < log[j].len() implies set.meta.list_in(
            (#[trigger] log[j][i]).block,
            log[j][i].node,
        ) == lists(log[j][i].node) by {
            if j < init.len() {
                assert(init[j][i] == log[j][i]);
            } else {
                assert(round[i] == log[j][i]);
            }
        }
        init.lemma_flatten_push(round);
        assert(init.push(round) =~= log);
        assert forall|i: int| 0 <= i < log.flatten().len() implies (#[trigger] log.flatten()[i]).dist == exact(
            log.flatten()[i].node,
        ) && log.flatten()[i].node < base.count by {
            if i < init.flatten().len() {
                assert(log.flatten()[i] == init.flatten()[i]);
            } else {
                assert(log.flatten()[i] == round[i - init.flatten().len()]);
            }
        }
    }
}

/// The batched search and a query of the pipeline end in the same state, and
/// what the search measured is exact.
proof fn lemma_same_end<R: BlockReader, S: RouteScorer, M: Fn(&[u32], &[u32]) -> u32>(
    index: &DiskIndex<R>,
    base: FloatVectors,
    graph: VamanaGraph,
    scorer: &S,
    metric: &M,
    query: Seq<u32>,
    exact: spec_fn(u32) -> u32,
    set: Setting,
    q: int,
    log: Seq<Seq<Fetch>>,
    ordered: bool,
    fetched: Seq<Fetch>,
    rounds: Seq<Seq<Seq<u32>>>,
    end: Beam,
    top: Seq<(u32, u32)>,
)
    requires
        set.wf(),
        set.meta == index.meta,
        (set.score)(q) == scores(scorer, query),
        packable(base, graph),
        holds_file(&index.reader, index_file(base, graph)),
        index.meta == index_meta(base, graph),
        set.settled(q, log),
        read_and_measured(index, metric, query, log),
        forall|id: u32, d: u32|
            id < base.count && #[trigger] measures(metric, query, base.row(id as int), d) ==> d == exact(id),
        numbers_on(scores(scorer, query), set.course(q, log).visited),
        ordered ==> in_request_order(set, q, log),
        !ordered ==> distinct_on(scores(scorer, query), set.course(q, log).visited),
        index.searched(scorer, metric, query, set.k, set.ef, set.w, fetched, rounds, end, top),
    ensures
        end == set.course(q, log),
        end.wf(),
        fetched.len() == log.flatten().len(),
        forall|i: int|
            0 <= i < fetched.len() ==> (#[trigger] fetched[i]).node == end.expanded[i].1 && fetched[i].dist == exact(
                fetched[i].node,
            ) && fetched[i].node < base.count,
        forall|i: int|
            0 <= i < log.flatten().len() ==> (#[trigger] log.flatten()[i]).dist == exact(log.flatten()[i].node)
                && log.flatten()[i].node < base.count,
{
    let n = base.count as nat;
    let score = scores(scorer, query);
    let lists = |id: u32| graph.list(id as int);
    let answer = |id: u32, l: Seq<u32>| l == lists(id);
    lemma_log_is_exact(index, base, graph, metric, query, exact, set, q, log);
    assert(index.meta.n == base.count && index.meta.medoid == graph.medoid);
    assert forall|id: u32| id < n implies in_range(#[trigger] lists(id), n) by {
        assert(in_range(graph.list(id as int), n));
    }
    lemma_course_is_run(set, q, lists, log, ordered);
    lemma_course(set, q, log);
    lemma_course_reads(set, q, log);
    assert forall|id: u32, l: Seq<u32>| id < n && #[trigger] index.adjacency()(id, l) implies l == lists(id) by {
        let block = choose|block: Seq<u8>| #[trigger] index.fetches(id, block) && l == index.meta.list_in(block, id);
        law_written_node_reads_back(index, base, graph, id, block);
    }
    law_one_graph_one_search(
        graph.medoid,
        set.ef,
        set.w,
        score,
        lists,
        n,
        index.adjacency(),
        rounds,
        end,
        answer,
        requested_rounds(set, q, lists, log),
        set.course(q, log),
    );
    assert forall|i: int| 0 <= i < fetched.len() implies (#[trigger] fetched[i]).node == end.expanded[i].1
        && fetched[i].dist == exact(fetched[i].node) && fetched[i].node < base.count by {
        let f = fetched[i];
        assert(end.visited.contains(end.expanded[i].1));
        assert(index.fetches(f.node, f.block));
        law_written_node_reads_back(index, base, graph, f.node, f.block);
        assert(measures(metric, query, base.row(f.node as int), f.dist));
    }
}

/// The pipelined search matches the batched search exactly, same results and
/// same read counts, wherever the blocks of each round land in the order of
/// the requests. The scores of the nodes that the query saw have to be
/// numbers.
pub proof fn law_pipeline_matches_in_order<R: BlockReader, S: RouteScorer, M: Fn(&[u32], &[u32]) -> u32>(
    index: &DiskIndex<R>,
    base: FloatVectors,
    graph: VamanaGraph,
    scorer: &S,
    metric: &M,
    queries: &FloatVectors,
    run: Run,
    q: int,
    log: Seq<Seq<Fetch>>,
    exact: spec_fn(u32) -> u32,
    end: Beam,
    top: Seq<(u32, u32)>,
    reads: nat,
)
    requires
        index.wf(),
        packable(base, graph),
        holds_file(&index.reader, index_file(base, graph)),
        index.meta == index_meta(base, graph),
        run.meta == index.meta,
        run.setting(scorer, queries).wf(),
        run.setting(scorer, queries).settled(q, log),
        read_and_measured(index, metric, queries.row(q), log),
        forall|id: u32, d: u32|
            id < base.count && #[trigger] measures(metric, queries.row(q), base.row(id as int), d) ==> d == exact(id),
        numbers_on(scores(scorer, queries.row(q)), run.setting(scorer, queries).course(q, log).visited),
        in_request_order(run.setting(scorer, queries), q, log),
        index.finds(scorer, metric, queries.row(q), run.k, run.ef, run.w, end, top, reads),
    ensures
        outcome(run.k, log) == (top, reads),
{
    let set = run.setting(scorer, queries);
    let query = queries.row(q);
    let (fetched, rounds) = choose|fetched: Seq<Fetch>, rounds: Seq<Seq<Seq<u32>>>|
        #[trigger] index.searched(scorer, metric, query, run.k, run.ef, run.w, fetched, rounds, end, top) && reads
            == fetched.len();
    lemma_same_end(
        index,
        base,
        graph,
        scorer,
        metric,
        query,
        exact,
        set,
        q,
        log,
        true,
        fetched,
        rounds,
        end,
        top,
    );
    lemma_nodes_in_order(set, q, log);
    let all = log.flatten();
    assert forall|i: int| 0 <= i < all.len() implies reranked(all)[i] == reranked(fetched)[i] by {
        assert(nodes_of(all)[i] == all[i].node);
        assert(pair_ids(end.expanded)[i] == end.expanded[i].1);
        assert(fetched[i].node == end.expanded[i].1);
    }
    assert(reranked(all) =~= reranked(fetched));
}

/// The pipelined search matches the batched search exactly, same results and
/// same read counts, in whatever order the blocks land, where neither two
/// routing scores of the nodes that the query saw nor two exact distances of
/// the nodes that it read tie.
pub proof fn law_pipeline_matches_any_order<R: BlockReader, S: RouteScorer, M: Fn(&[u32], &[u32]) -> u32>(
    index: &DiskIndex<R>,
    base: FloatVectors,
    graph: VamanaGraph,
    scorer: &S,
    metric: &M,
    queries: &FloatVectors,
    run: Run,
    q: int,
    log: Seq<Seq<Fetch>>,
    exact: spec_fn(u32) -> u32,
    end: Beam,
    top: Seq<(u32, u32)>,
    reads: nat,
)
    requires
        index.wf(),
        packable(base, graph),
        holds_file(&index.reader, index_file(base, graph)),
        index.meta == index_meta(base, graph),
        run.meta == index.meta,
        run.setting(scorer, queries).wf(),
        run.setting(scorer, queries).settled(q, log),
        read_and_measured(index, metric, queries.row(q), log),
        forall|id: u32, d: u32|
            id < base.count && #[trigger] measures(metric, queries.row(q), base.row(id as int), d) ==> d == exact(id),
        distinct_on(scores(scorer, queries.row(q)), run.setting(scorer, queries).course(q, log).visited),
        distinct_on(exact, nodes_of(log.flatten()).to_set()),
        index.finds(scorer, metric, queries.row(q), run.k, run.ef, run.w, end, top, reads),
    ensures
        outcome(run.k, log) == (top, reads),
{
    let set = run.setting(scorer, queries);
    let query = queries.row(q);
    let score = scores(scorer, query);
    let (fetched, rounds) = choose|fetched: Seq<Fetch>, rounds: Seq<Seq<Seq<u32>>>|
        #[trigger] index.searched(scorer, metric, query, run.k, run.ef, run.w, fetched, rounds, end, top) && reads
            == fetched.len();
    lemma_same_end(
        index,
        base,
        graph,
        scorer,
        metric,
        query,
        exact,
        set,
        q,
        log,
        false,
        fetched,
        rounds,
        end,
        top,
    );
    lemma_nodes_any_order(set, q, log);
    let all = log.flatten();
    let a = reranked(all);
    let b = reranked(fetched);
    let nodes = nodes_of(all);
    let ids = pair_ids(end.expanded);
    assert(ids.no_duplicates()) by {
        assert forall|i: int, j: int| 0 <= i < ids.len() && 0 <= j < ids.len() && i != j implies ids[i] != ids[j] by {
            if i < j {
                assert(end.expanded[i].1 != end.expanded[j].1);
            } else {
                assert(end.expanded[j].1 != end.expanded[i].1);
            }
        }
    }
    assert forall|i: int| 0 <= i < ids.len() implies nodes.contains(#[trigger] ids[i]) by {
        assert(nodes.contains(end.expanded[i].1));
    }
    lemma_subset_len(ids, nodes);
    assert(nodes.to_set() =~= ids.to_set()) by {
        assert forall|x: u32| nodes.to_set().contains(x) implies ids.to_set().contains(x) by {
            let i = choose|i: int| 0 <= i < nodes.len() && nodes[i] == x;
            assert(ids.contains(nodes[i]));
        }
        assert forall|x: u32| ids.to_set().contains(x) implies nodes.to_set().contains(x) by {
            let i = choose|i: int| 0 <= i < ids.len() && ids[i] == x;
            assert(nodes.contains(ids[i]));
        }
    }
    ids.unique_seq_to_set();
    nodes.lemma_no_dup_set_cardinality();
    assert(a.no_duplicates()) by {
        assert forall|i: int, j: int| 0 <= i < a.len() && 0 <= j < a.len() && i != j implies a[i] != a[j] by {
            assert(nodes[i] != nodes[j]);
        }
    }
    assert(b.no_duplicates()) by {
        assert forall|i: int, j: int| 0 <= i < b.len() && 0 <= j < b.len() && i != j implies b[i] != b[j] by {
            assert(ids[i] != ids[j]);
            assert(fetched[i].node == ids[i] && fetched[j].node == ids[j]);
        }
    }
    assert(pair_set(a) =~= pair_set(b)) by {
        assert forall|e: (u32, u32)| pair_set(a).contains(e) implies pair_set(b).contains(e) by {
            let i = choose|i: int| 0 <= i < a.len() && a[i] == e;
            assert(all[i].dist == exact(all[i].node));
            assert(nodes[i] == e.1);
            assert(nodes.to_set().contains(e.1));
            assert(ids.to_set().contains(e.1));
            let k = choose|k: int| 0 <= k < ids.len() && ids[k] == e.1;
            assert(fetched[k].node == e.1);
            assert(b[k] == e);
        }
        assert forall|e: (u32, u32)| pair_set(b).contains(e) implies pair_set(a).contains(e) by {
            let k = choose|k: int| 0 <= k < b.len() && b[k] == e;
            assert(fetched[k].node == ids[k]);
            assert(nodes.contains(ids[k]));
            let i = choose|i: int| 0 <= i < nodes.len() && nodes[i] == ids[k];
            assert(all[i].dist == exact(all[i].node));
            assert(a[i] == e);
        }
    }
    assert(tie_free(pair_set(b))) by {
        assert forall|e: (u32, u32)| #[trigger] pair_set(b).contains(e) implies nodes.to_set().contains(e.1) && e.0
            == exact(e.1) by {
            let k = choose|k: int| 0 <= k < b.len() && b[k] == e;
            assert(fetched[k].node == ids[k]);
            assert(nodes.contains(ids[k]));
        }
        assert forall|e: (u32, u32)| #[trigger] pair_set(b).contains(e) implies !is_nan(e.0) by {
            assert(nodes.to_set().contains(e.1));
        }
        assert forall|e: (u32, u32), f: (u32, u32)| #[trigger]
            pair_set(b).contains(e) && #[trigger] pair_set(b).contains(f) && e != f implies position(e.0) != position(
            f.0,
        ) by {
            assert(e.1 != f.1);
            assert(nodes.to_set().contains(e.1) && nodes.to_set().contains(f.1));
        }
    }
    lemma_kept_selects(a, run.k);
    lemma_kept_selects(b, run.k);
    lemma_selects_unique(kept(a, run.k), kept(b, run.k), run.k, pair_set(b));
}

} // verus!
