//! Searches that have room for everything.
//!
//! With a pool as large as the number of nodes that can be reached from the
//! entry point, a search turns nothing away. It then expands all these nodes,
//! and where they are all there is, its results are those of a scan.

use vstd::prelude::*;

use crate::beam::{
    in_pool, law_keeps_closest_seen, lemma_absorb, lemma_absorb_all, lemma_absorb_lists, lemma_answers_in_order,
    lemma_distinct_pairs, lemma_expand, lemma_picks, lemma_pool_expanded, lemma_round, lemma_run, lemma_seeded,
    lemma_squeezed, lists_set, numbers_on, pairs_of, pool_sorted, slot, Beam,
};
use crate::bits::{at_most, is_nan, position};
use crate::brute::scanned;
use crate::scorer::{scores, RouteScorer};
use crate::topk::{kept, lemma_kept_as_close};

verus! {

/// An edge leads from one node of the path to the next.
pub open spec fn steps(graph: spec_fn(u32) -> Seq<u32>, path: Seq<u32>, i: int) -> bool {
    graph(path[i]).contains(path[i + 1])
}

/// A path along the edges of a graph.
pub open spec fn walks(graph: spec_fn(u32) -> Seq<u32>, path: Seq<u32>) -> bool {
    &&& path.len() > 0
    &&& forall|i: int| 0 <= i < path.len() - 1 ==> #[trigger] steps(graph, path, i)
}

/// A path leads from one node to another.
pub open spec fn leads(graph: spec_fn(u32) -> Seq<u32>, from: u32, to: u32) -> bool {
    exists|path: Seq<u32>| #[trigger] walks(graph, path) && path.first() == from && path.last() == to
}

/// The nodes that can be reached from an entry point, itself among them.
pub open spec fn reachable(graph: spec_fn(u32) -> Seq<u32>, entry: u32) -> Set<u32> {
    Set::new(|id: u32| leads(graph, entry, id))
}

/// The entry point can be reached.
proof fn lemma_entry_reachable(graph: spec_fn(u32) -> Seq<u32>, entry: u32)
    ensures
        reachable(graph, entry).contains(entry),
{
    let path = seq![entry];
    assert(walks(graph, path));
    assert(path.first() == entry && path.last() == entry);
}

/// What can be reached goes on along the edges.
proof fn lemma_reachable_step(graph: spec_fn(u32) -> Seq<u32>, entry: u32, a: u32, b: u32)
    requires
        reachable(graph, entry).contains(a),
        graph(a).contains(b),
    ensures
        reachable(graph, entry).contains(b),
{
    let path = choose|path: Seq<u32>| #[trigger] walks(graph, path) && path.first() == entry && path.last() == a;
    let longer = path.push(b);
    assert forall|i: int| 0 <= i < longer.len() - 1 implies #[trigger] steps(graph, longer, i) by {
        if i < path.len() - 1 {
            assert(steps(graph, path, i));
        }
    }
    assert(walks(graph, longer));
    assert(longer.first() == entry && longer.last() == b);
}

/// A set that holds the start of a path and goes on along the edges holds the
/// whole path.
proof fn lemma_path_stays(graph: spec_fn(u32) -> Seq<u32>, path: Seq<u32>, nodes: Set<u32>, i: int)
    requires
        walks(graph, path),
        nodes.contains(path.first()),
        forall|a: u32, b: u32| #[trigger] nodes.contains(a) && #[trigger] graph(a).contains(b) ==> nodes.contains(b),
        0 <= i < path.len(),
    ensures
        nodes.contains(path[i]),
    decreases i,
{
    if i > 0 {
        lemma_path_stays(graph, path, nodes, i - 1);
        assert(steps(graph, path, i - 1));
    }
}

/// There are only so many ids.
proof fn lemma_ids_are_finite(nodes: Set<u32>)
    ensures
        nodes.finite(),
{
    let all = Seq::new(0x1_0000_0000, |i: int| i as u32);
    vstd::seq_lib::seq_to_set_is_finite(all);
    assert forall|id: u32| nodes.contains(id) implies all.to_set().contains(id) by {
        assert(all[id as int] == id);
    }
    vstd::set_lib::lemma_len_subset(nodes, all.to_set());
}

/// Whatever was visited is still in the pool.
pub open spec fn keeps_all(b: Beam) -> bool {
    forall|id: u32| #[trigger] b.visited.contains(id) ==> in_pool(b.pool, id)
}

/// The ids of the pool.
spec fn pool_ids(b: Beam) -> Seq<u32> {
    Seq::new(b.pool.len(), |i: int| b.pool[i].id)
}

/// The ids of the expanded nodes.
spec fn expanded_ids(b: Beam) -> Seq<u32> {
    Seq::new(b.expanded.len(), |i: int| b.expanded[i].1)
}

proof fn lemma_ids_differ(b: Beam)
    requires
        b.wf(),
    ensures
        pool_ids(b).no_duplicates(),
        expanded_ids(b).no_duplicates(),
{
    let p = pool_ids(b);
    assert forall|i: int, j: int| 0 <= i < p.len() && 0 <= j < p.len() && i != j implies p[i] != p[j] by {
        if i < j {
            assert(b.pool[i].id != b.pool[j].id);
        } else {
            assert(b.pool[j].id != b.pool[i].id);
        }
    }
    let e = expanded_ids(b);
    assert forall|i: int, j: int| 0 <= i < e.len() && 0 <= j < e.len() && i != j implies e[i] != e[j] by {
        if i < j {
            assert(b.expanded[i].1 != b.expanded[j].1);
        } else {
            assert(b.expanded[j].1 != b.expanded[i].1);
        }
    }
}

/// A pool that has room for all nodes turns none of them away.
proof fn lemma_absorb_keeps(b: Beam, ef: nat, score: spec_fn(u32) -> u32, nb: u32, nodes: Set<u32>)
    requires
        b.wf(),
        b.scored(score),
        b.pool.len() <= ef,
        ef > 0,
        nodes.finite(),
        nodes.len() <= ef,
        b.visited.insert(nb).subset_of(nodes),
        keeps_all(b),
    ensures
        keeps_all(b.absorb(ef, score, nb)),
{
    if !b.visited.contains(nb) {
        let a = b.absorb(ef, score, nb);
        let d = score(nb);
        let ids = pool_ids(b);
        lemma_ids_differ(b);
        ids.unique_seq_to_set();
        assert(b.visited.insert(nb).contains(nb));
        assert forall|id: u32| ids.to_set().contains(id) implies nodes.remove(nb).contains(id) by {
            let i = choose|i: int| 0 <= i < ids.len() && ids[i] == id;
            assert(b.visited.contains(b.pool[i].id));
            assert(b.visited.insert(nb).contains(id));
        }
        vstd::set_lib::lemma_len_subset(ids.to_set(), nodes.remove(nb));
        assert(b.pool.len() < ef);
        lemma_squeezed(b.pool, ef, d, nb);
        let at = slot(b.pool, d);
        assert forall|id: u32| #[trigger] a.visited.contains(id) implies in_pool(a.pool, id) by {
            if id == nb {
                assert(a.pool[at].id == id);
            } else {
                assert(b.visited.contains(id));
                let i = choose|i: int| 0 <= i < b.pool.len() && (#[trigger] b.pool[i]).id == id;
                if i < at {
                    assert(a.pool[i].id == id);
                } else {
                    assert(a.pool[i + 1].id == id);
                }
            }
        }
    }
}

proof fn lemma_absorb_all_keeps(b: Beam, ef: nat, score: spec_fn(u32) -> u32, nbs: Seq<u32>, nodes: Set<u32>)
    requires
        b.wf(),
        b.scored(score),
        b.pool.len() <= ef,
        ef > 0,
        nodes.finite(),
        nodes.len() <= ef,
        b.absorb_all(ef, score, nbs).visited.subset_of(nodes),
        keeps_all(b),
    ensures
        keeps_all(b.absorb_all(ef, score, nbs)),
    decreases nbs.len(),
{
    if nbs.len() > 0 {
        let init = nbs.drop_last();
        let c = b.absorb_all(ef, score, init);
        lemma_absorb_all(b, ef, score, init);
        lemma_absorb(c, ef, score, nbs.last());
        lemma_absorb_all_keeps(b, ef, score, init, nodes);
        lemma_absorb_keeps(c, ef, score, nbs.last(), nodes);
    }
}

proof fn lemma_absorb_lists_keeps(
    b: Beam,
    ef: nat,
    score: spec_fn(u32) -> u32,
    lists: Seq<Seq<u32>>,
    nodes: Set<u32>,
)
    requires
        b.wf(),
        b.scored(score),
        b.pool.len() <= ef,
        ef > 0,
        nodes.finite(),
        nodes.len() <= ef,
        b.absorb_lists(ef, score, lists).visited.subset_of(nodes),
        keeps_all(b),
    ensures
        keeps_all(b.absorb_lists(ef, score, lists)),
    decreases lists.len(),
{
    if lists.len() > 0 {
        let init = lists.drop_last();
        let c = b.absorb_lists(ef, score, init);
        lemma_absorb_lists(b, ef, score, init);
        lemma_absorb_all(c, ef, score, lists.last());
        lemma_absorb_lists_keeps(b, ef, score, init, nodes);
        lemma_absorb_all_keeps(c, ef, score, lists.last(), nodes);
    }
}

/// A search over a graph visits only what can be reached, and with room for
/// all of it keeps all that it visits.
proof fn lemma_run_keeps(
    entry: u32,
    ef: nat,
    w: nat,
    score: spec_fn(u32) -> u32,
    rounds: Seq<Seq<Seq<u32>>>,
    graph: spec_fn(u32) -> Seq<u32>,
    answer: spec_fn(u32, Seq<u32>) -> bool,
)
    requires
        ef > 0,
        reachable(graph, entry).len() <= ef,
        forall|id: u32, l: Seq<u32>|
            reachable(graph, entry).contains(id) && #[trigger] answer(id, l) ==> l == graph(id),
        Beam::seeded(entry, score(entry)).trace(ef, w, score, rounds, answer),
    ensures
        Beam::seeded(entry, score(entry)).run(ef, w, score, rounds).visited.subset_of(reachable(graph, entry)),
        keeps_all(Beam::seeded(entry, score(entry)).run(ef, w, score, rounds)),
    decreases rounds.len(),
{
    let start = Beam::seeded(entry, score(entry));
    let nodes = reachable(graph, entry);
    lemma_entry_reachable(graph, entry);
    lemma_ids_are_finite(nodes);
    lemma_seeded(entry, score(entry), score);
    if rounds.len() == 0 {
        assert(start.pool[0].id == entry);
    } else {
        let init = rounds.drop_last();
        let lists = rounds.last();
        let b = start.run(ef, w, score, init);
        let e = b.expand(w);
        lemma_run_keeps(entry, ef, w, score, init, graph, answer);
        lemma_run(start, ef, w, score, init);
        lemma_round(b, ef, w, score, lists);
        lemma_expand(b, w);
        lemma_picks(b.pool, b.pool.len(), w);
        assert forall|id: u32| lists_set(lists).contains(id) implies nodes.contains(id) by {
            let i = choose|i: int| 0 <= i < lists.len() && (#[trigger] lists[i]).contains(id);
            let node = b.frontier(w)[i];
            assert(b.visited.contains(b.pool[b.chosen(w)[i]].id));
            assert(answer(node, lists[i]));
            lemma_reachable_step(graph, entry, node, id);
        }
        assert forall|id: u32| #[trigger] e.visited.contains(id) implies in_pool(e.pool, id) by {
            assert(b.visited.contains(id));
            let i = choose|i: int| 0 <= i < b.pool.len() && (#[trigger] b.pool[i]).id == id;
            assert(e.pool[i].id == id);
        }
        lemma_absorb_lists_keeps(e, ef, score, lists, nodes);
    }
}

/// The neighbors that come in are visited.
proof fn lemma_answers_are_visited(
    start: Beam,
    ef: nat,
    w: nat,
    score: spec_fn(u32) -> u32,
    rounds: Seq<Seq<Seq<u32>>>,
)
    requires
        ef > 0,
        start.wf(),
        start.scored(score),
        start.pool.len() <= ef,
    ensures
        forall|i: int, id: u32|
            0 <= i < rounds.flatten().len() && #[trigger] rounds.flatten()[i].contains(id) ==> start.run(
                ef,
                w,
                score,
                rounds,
            ).visited.contains(id),
    decreases rounds.len(),
{
    if rounds.len() > 0 {
        let init = rounds.drop_last();
        let lists = rounds.last();
        let b = start.run(ef, w, score, init);
        let end = start.run(ef, w, score, rounds);
        lemma_answers_are_visited(start, ef, w, score, init);
        lemma_run(start, ef, w, score, init);
        lemma_round(b, ef, w, score, lists);
        init.lemma_flatten_push(lists);
        assert(init.push(lists) =~= rounds);
        assert forall|i: int, id: u32|
            0 <= i < rounds.flatten().len() && #[trigger] rounds.flatten()[i].contains(
                id,
            ) implies end.visited.contains(id) by {
            if i < init.flatten().len() {
                assert(init.flatten()[i].contains(id));
                assert(b.visited.contains(id));
            } else {
                assert(lists[i - init.flatten().len()].contains(id));
                assert(lists_set(lists).contains(id));
            }
        }
    }
}

/// With a pool that has room for all nodes that can be reached from its entry
/// point, a search over a graph visits and expands exactly these nodes, each
/// once, and ends with exactly these nodes in its pool; in ascending order,
/// where their distances are numbers.
pub proof fn law_roomy_search_expands_reachable(
    entry: u32,
    ef: nat,
    w: nat,
    score: spec_fn(u32) -> u32,
    graph: spec_fn(u32) -> Seq<u32>,
    rounds: Seq<Seq<Seq<u32>>>,
    answer: spec_fn(u32, Seq<u32>) -> bool,
    end: Beam,
)
    requires
        w > 0,
        ef >= reachable(graph, entry).len(),
        forall|id: u32, l: Seq<u32>|
            reachable(graph, entry).contains(id) && #[trigger] answer(id, l) ==> l == graph(id),
        Beam::seeded(entry, score(entry)).settles(ef, w, score, rounds, answer, end),
    ensures
        end.wf(),
        end.scored(score),
        end.visited == reachable(graph, entry),
        forall|id: u32| #[trigger] end.has_expanded(id) <==> reachable(graph, entry).contains(id),
        end.expanded.len() == reachable(graph, entry).len(),
        forall|id: u32| #[trigger] in_pool(end.pool, id) <==> reachable(graph, entry).contains(id),
        end.pool.len() == reachable(graph, entry).len(),
        numbers_on(score, reachable(graph, entry)) ==> pool_sorted(end.pool),
{
    let start = Beam::seeded(entry, score(entry));
    let nodes = reachable(graph, entry);
    lemma_entry_reachable(graph, entry);
    lemma_ids_are_finite(nodes);
    assert(nodes.len() > 0) by {
        vstd::set_lib::lemma_set_empty_equivalency_len(nodes);
    }
    lemma_seeded(entry, score(entry), score);
    lemma_run(start, ef, w, score, rounds);
    lemma_run_keeps(entry, ef, w, score, rounds, graph, answer);
    lemma_pool_expanded(end, w, score);
    lemma_answers_in_order(entry, ef, w, score, rounds, answer);
    lemma_answers_are_visited(start, ef, w, score, rounds);
    lemma_entry_visited(start, ef, w, score, rounds, entry);
    assert forall|id: u32| #[trigger] end.visited.contains(id) implies end.has_expanded(id) by {
        assert(in_pool(end.pool, id));
        let i = choose|i: int| 0 <= i < end.pool.len() && (#[trigger] end.pool[i]).id == id;
        let e = pairs_of(end.pool)[i];
        assert(end.expanded.contains(e));
        let j = choose|j: int| 0 <= j < end.expanded.len() && end.expanded[j] == e;
        assert(end.expanded[j].1 == id);
    }
    assert forall|a: u32, b: u32| #[trigger] end.visited.contains(a) && #[trigger] graph(a).contains(
        b,
    ) implies end.visited.contains(b) by {
        assert(end.has_expanded(a));
        let i = choose|i: int| 0 <= i < end.expanded.len() && (#[trigger] end.expanded[i]).1 == a;
        assert(answer(end.expanded[i].1, rounds.flatten()[i]));
        assert(rounds.flatten()[i].contains(b));
    }
    assert forall|id: u32| nodes.contains(id) implies end.visited.contains(id) by {
        let path = choose|path: Seq<u32>| #[trigger]
            walks(graph, path) && path.first() == entry && path.last() == id;
        lemma_path_stays(graph, path, end.visited, path.len() - 1);
    }
    assert(end.visited =~= nodes);
    assert forall|id: u32| #[trigger] end.has_expanded(id) implies nodes.contains(id) by {
        let i = choose|i: int| 0 <= i < end.expanded.len() && (#[trigger] end.expanded[i]).1 == id;
        assert(end.visited.contains(end.expanded[i].1));
    }
    assert forall|id: u32| #[trigger] in_pool(end.pool, id) implies nodes.contains(id) by {
        let i = choose|i: int| 0 <= i < end.pool.len() && (#[trigger] end.pool[i]).id == id;
        assert(end.visited.contains(end.pool[i].id));
    }
    lemma_ids_differ(end);
    assert(expanded_ids(end).to_set() =~= nodes) by {
        assert forall|id: u32| nodes.contains(id) implies expanded_ids(end).contains(id) by {
            assert(end.has_expanded(id));
            let i = choose|i: int| 0 <= i < end.expanded.len() && (#[trigger] end.expanded[i]).1 == id;
            assert(expanded_ids(end)[i] == id);
        }
        assert forall|id: u32| expanded_ids(end).contains(id) implies nodes.contains(id) by {
            let i = choose|i: int| 0 <= i < expanded_ids(end).len() && expanded_ids(end)[i] == id;
            assert(end.visited.contains(end.expanded[i].1));
        }
    }
    expanded_ids(end).unique_seq_to_set();
    assert(pool_ids(end).to_set() =~= nodes) by {
        assert forall|id: u32| nodes.contains(id) implies pool_ids(end).contains(id) by {
            assert(in_pool(end.pool, id));
            let i = choose|i: int| 0 <= i < end.pool.len() && (#[trigger] end.pool[i]).id == id;
            assert(pool_ids(end)[i] == id);
        }
        assert forall|id: u32| pool_ids(end).contains(id) implies nodes.contains(id) by {
            let i = choose|i: int| 0 <= i < pool_ids(end).len() && pool_ids(end)[i] == id;
            assert(end.visited.contains(end.pool[i].id));
        }
    }
    pool_ids(end).unique_seq_to_set();
    if numbers_on(score, nodes) {
        law_keeps_closest_seen(entry, ef, w, score, rounds);
    }
}

/// The entry point stays visited.
proof fn lemma_entry_visited(
    start: Beam,
    ef: nat,
    w: nat,
    score: spec_fn(u32) -> u32,
    rounds: Seq<Seq<Seq<u32>>>,
    entry: u32,
)
    requires
        ef > 0,
        start.wf(),
        start.scored(score),
        start.pool.len() <= ef,
        start.visited.contains(entry),
    ensures
        start.run(ef, w, score, rounds).visited.contains(entry),
    decreases rounds.len(),
{
    if rounds.len() > 0 {
        let init = rounds.drop_last();
        lemma_entry_visited(start, ef, w, score, init, entry);
        lemma_run(start, ef, w, score, init);
        lemma_round(start.run(ef, w, score, init), ef, w, score, rounds.last());
    }
}

/// Where all of `n` points, and nothing else, can be reached from the entry
/// point, and the pool has room for all of them, the head of the pool is as
/// close, place by place, as the results of a scan over all points. The
/// distances have to be numbers.
pub proof fn law_roomy_search_matches_scan<S: RouteScorer>(
    base: &S,
    query: Seq<u32>,
    n: nat,
    k: nat,
    entry: u32,
    ef: nat,
    w: nat,
    graph: spec_fn(u32) -> Seq<u32>,
    rounds: Seq<Seq<Seq<u32>>>,
    answer: spec_fn(u32, Seq<u32>) -> bool,
    end: Beam,
)
    requires
        k > 0,
        w > 0,
        n <= 0x1_0000_0000,
        ef >= n,
        forall|id: u32| #[trigger] reachable(graph, entry).contains(id) <==> id < n,
        forall|id: u32| id < n ==> !is_nan(#[trigger] base.distance(query, id)),
        forall|id: u32, l: Seq<u32>| id < n && #[trigger] answer(id, l) ==> l == graph(id),
        Beam::seeded(entry, base.distance(query, entry)).settles(ef, w, scores(base, query), rounds, answer, end),
    ensures
        ({
            let best = kept(scanned(base, query, n), k);
            &&& end.pool.len() == n
            &&& best.len() == (if k < n { k } else { n })
            &&& forall|j: int|
                0 <= j < best.len() ==> position((#[trigger] best[j]).0) == position(end.pool[j].dist)
        }),
{
    let score = scores(base, query);
    let nodes = reachable(graph, entry);
    let all = scanned(base, query, n);
    let s = pairs_of(end.pool);
    let ids = Seq::new(n, |i: int| i as u32);
    assert(nodes.len() == n) by {
        assert(ids.no_duplicates());
        ids.unique_seq_to_set();
        assert forall|id: u32| nodes.contains(id) implies ids.contains(id) by {
            assert(ids[id as int] == id);
        }
        assert(ids.to_set() =~= nodes);
    }
    law_roomy_search_expands_reachable(entry, ef, w, score, graph, rounds, answer, end);
    assert forall|i: int| 0 <= i < all.len() implies !is_nan(#[trigger] all[i].0) by {
        assert(!is_nan(base.distance(query, i as u32)));
    }
    assert(numbers_on(score, nodes));
    lemma_distinct_pairs(all);
    lemma_distinct_pairs(s);
    assert forall|i: int| 0 <= i < s.len() implies all.contains(#[trigger] s[i]) by {
        let c = end.pool[i];
        assert(in_pool(end.pool, c.id));
        assert(nodes.contains(c.id));
        assert(all[c.id as int] == s[i]);
    }
    assert forall|e: (u32, u32)| #[trigger] all.contains(e) implies s.contains(e) by {
        let i = choose|i: int| 0 <= i < all.len() && all[i] == e;
        assert(nodes.contains(e.1));
        assert(in_pool(end.pool, e.1));
        let j = choose|j: int| 0 <= j < end.pool.len() && (#[trigger] end.pool[j]).id == e.1;
        assert(s[j] == e);
    }
    assert forall|i: int, j: int| 0 <= i <= j < s.len() implies at_most(
        (#[trigger] s[i]).0,
        (#[trigger] s[j]).0,
    ) by {
        assert(at_most(end.pool[i].dist, end.pool[j].dist));
    }
    lemma_kept_as_close(all, s, k);
}

} // verus!
