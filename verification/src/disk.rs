//! The on-disk index, read block by block.
//!
//! Routing scores candidates from RAM. The disk's job is one 4 KiB read per
//! expanded node, batched `w` at a time.

use vstd::prelude::*;

use crate::beam::{
    distinct_on, in_range, law_expanded_are_as_close, law_expanded_hold_the_best, law_one_graph_one_search,
    lemma_expand, lemma_expanded_bound, lemma_picks, lemma_round, lemma_round_below, lemma_run, lemma_run_below,
    lemma_seeded, lemma_trace_weaken, lists_in_range, numbers_on, pairs_of, picks, Beam,
};
use crate::bits::position;
use crate::dataset::FloatVectors;
use crate::graph::VamanaGraph;
use crate::io::{BlockRead, BlockReader, BLOCK_SIZE};
use crate::layout::{
    decode_vector, file_block, header_error, header_meta, index_file, index_meta, law_header_roundtrip,
    law_index_roundtrip, node_size, parse_header, parse_neighbors, DiskIndexMeta, HeaderError,
};
use crate::scorer::{covers_all, scores, RouteScorer};
use crate::search::{lemma_expand_nothing, SearchScratch};
use crate::topk::{kept, lemma_kept_offered, TopK};

verus! {

/// Why an index cannot be opened.
#[derive(Debug)]
pub enum OpenError<E> {
    /// The header could not be read.
    Read(E),
    /// The header was refused.
    Header(HeaderError),
}

/// Why a search came to no result.
#[derive(Debug)]
pub enum SearchError<E> {
    /// A batch of blocks could not be read.
    Read(E),
    /// The block of this node names a neighbor that the scorer or the scratch
    /// has no place for.
    CorruptNode { node: u32 },
}

/// An index behind a source of blocks.
pub struct DiskIndex<R: BlockReader> {
    pub meta: DiskIndexMeta,
    pub reader: R,
}

/// Every buffer holds one block.
pub open spec fn one_block_each(bufs: Seq<BlockRead>) -> bool {
    forall|i: int| 0 <= i < bufs.len() ==> (#[trigger] bufs[i]).buf@.len() == 4096
}

/// `d` is what the metric may give for two vectors.
pub open spec fn measures<M: Fn(&[u32], &[u32]) -> u32>(metric: &M, a: Seq<u32>, b: Seq<u32>, d: u32) -> bool {
    exists|s: &[u32], t: &[u32]| s@ == a && t@ == b && #[trigger] call_ensures(*metric, (s, t), d)
}

/// A node that a search expanded: the block that was read for it, and its
/// exact distance from the query.
pub struct Fetch {
    pub node: u32,
    pub block: Seq<u8>,
    pub dist: u32,
}

/// The neighbors in the blocks that were read, in the order of reading.
pub open spec fn lists_of(meta: DiskIndexMeta, fetched: Seq<Fetch>) -> Seq<Seq<u32>> {
    Seq::new(fetched.len(), |i: int| meta.list_in(fetched[i].block, fetched[i].node))
}

/// The exact distances of the expanded nodes, in the order of expansion.
pub open spec fn reranked(fetched: Seq<Fetch>) -> Seq<(u32, u32)> {
    Seq::new(fetched.len(), |i: int| (fetched[i].dist, fetched[i].node))
}

impl<R: BlockReader> DiskIndex<R> {
    /// The layout is sound, the entry point exists, and there are as many
    /// blocks as the nodes take.
    pub open spec fn wf(&self) -> bool {
        &&& self.meta.wf()
        &&& self.meta.medoid < self.meta.n
        &&& self.reader.block_total() == 1 + self.meta.blocks()
    }

    /// `block` is what a read of the node's block may give.
    pub open spec fn fetches(&self, node: u32, block: Seq<u8>) -> bool {
        &&& block.len() == 4096
        &&& self.reader.reads(self.meta.block_of(node) as u64, block)
    }

    /// The neighbors that a read of a node may give.
    pub open spec fn adjacency(&self) -> spec_fn(u32, Seq<u32>) -> bool {
        |node: u32, list: Seq<u32>|
            exists|block: Seq<u8>| #[trigger] self.fetches(node, block) && list == self.meta.list_in(block, node)
    }

    /// The block of every expanded node was read, and its vector measured.
    pub open spec fn recorded<M: Fn(&[u32], &[u32]) -> u32>(
        &self,
        metric: &M,
        query: Seq<u32>,
        fetched: Seq<Fetch>,
    ) -> bool {
        forall|i: int|
            0 <= i < fetched.len() ==> self.fetches((#[trigger] fetched[i]).node, fetched[i].block) && measures(
                metric,
                query,
                self.meta.vector_in(fetched[i].block, fetched[i].node),
                fetched[i].dist,
            )
    }

    /// A search from the entry point ended in `end`, along the neighbors that
    /// were read, one block for each expanded node; and `top` are the `k`
    /// best of the exact distances.
    pub open spec fn searched<S: RouteScorer, M: Fn(&[u32], &[u32]) -> u32>(
        &self,
        scorer: &S,
        metric: &M,
        query: Seq<u32>,
        k: nat,
        ef: nat,
        w: nat,
        fetched: Seq<Fetch>,
        rounds: Seq<Seq<Seq<u32>>>,
        end: Beam,
        top: Seq<(u32, u32)>,
    ) -> bool {
        &&& Beam::seeded(self.meta.medoid, scorer.distance(query, self.meta.medoid)).settles(
            ef,
            w,
            scores(scorer, query),
            rounds,
            self.adjacency(),
            end,
        )
        &&& fetched.len() == end.expanded.len()
        &&& forall|i: int| 0 <= i < fetched.len() ==> (#[trigger] fetched[i]).node == end.expanded[i].1
        &&& self.recorded(metric, query, fetched)
        &&& rounds.flatten() == lists_of(self.meta, fetched)
        &&& top == kept(reranked(fetched), k)
    }

    /// A search ended in `end`, with `top` and after `reads` block reads.
    pub open spec fn finds<S: RouteScorer, M: Fn(&[u32], &[u32]) -> u32>(
        &self,
        scorer: &S,
        metric: &M,
        query: Seq<u32>,
        k: nat,
        ef: nat,
        w: nat,
        end: Beam,
        top: Seq<(u32, u32)>,
        reads: nat,
    ) -> bool {
        exists|fetched: Seq<Fetch>, rounds: Seq<Seq<Seq<u32>>>|
            #[trigger] self.searched(scorer, metric, query, k, ef, w, fetched, rounds, end, top) && reads
                == fetched.len()
    }

    /// A read of the node's block may name a neighbor that is not below `n`.
    pub open spec fn corrupt(&self, node: u32, n: nat) -> bool {
        exists|block: Seq<u8>| #[trigger] self.fetches(node, block) && !in_range(self.meta.list_in(block, node), n)
    }

    /// A search that took these rounds asks for the block of this node next.
    pub open spec fn asks_after<S: RouteScorer>(
        &self,
        scorer: &S,
        query: Seq<u32>,
        ef: nat,
        w: nat,
        rounds: Seq<Seq<Seq<u32>>>,
        node: u32,
    ) -> bool {
        let start = Beam::seeded(self.meta.medoid, scorer.distance(query, self.meta.medoid));
        let score = scores(scorer, query);
        &&& start.trace(ef, w, score, rounds, self.adjacency())
        &&& start.run(ef, w, score, rounds).frontier(w).contains(node)
    }

    /// A search may ask for the block of this node.
    pub open spec fn asks_for<S: RouteScorer>(&self, scorer: &S, query: Seq<u32>, ef: nat, w: nat, node: u32) -> bool {
        exists|rounds: Seq<Seq<Seq<u32>>>| #[trigger] self.asks_after(scorer, query, ef, w, rounds, node)
    }

    /// A search may ask for a block whose read may fail with `e`.
    pub open spec fn unreadable<S: RouteScorer>(
        &self,
        scorer: &S,
        query: Seq<u32>,
        ef: nat,
        w: nat,
        e: R::Error,
    ) -> bool {
        exists|node: u32| #[trigger]
            self.asks_for(scorer, query, ef, w, node) && self.reader.fails(self.meta.block_of(node) as u64, e)
    }

    /// Opens an index by its header block.
    pub fn with_reader(reader: R) -> (r: Result<Self, OpenError<R::Error>>)
        ensures
            match r {
                Ok(index) => {
                    &&& index.wf()
                    &&& index.reader == reader
                    &&& exists|header: Seq<u8>| #[trigger]
                        reader.reads(0, header) && header.len() == 4096 && header_error(header, reader.block_total())
                            is None && index.meta == header_meta(header)
                },
                Err(OpenError::Header(e)) => exists|header: Seq<u8>| #[trigger]
                    reader.reads(0, header) && header.len() == 4096 && header_error(header, reader.block_total())
                        == Some(e),
                Err(OpenError::Read(e)) => reader.fails(0, e),
            },
    {
        let mut header: Vec<u8> = Vec::new();
        header.resize(BLOCK_SIZE, 0);
        match reader.read_block(0, header.as_mut_slice()) {
            Ok(_) => {},
            Err(e) => {
                return Err(OpenError::Read(e));
            },
        }
        assert(reader.reads(0, header@));
        match parse_header(header.as_slice(), reader.num_blocks()) {
            Ok(meta) => Ok(DiskIndex { meta, reader }),
            Err(e) => Err(OpenError::Header(e)),
        }
    }

    /// Fetch one node's vector and neighbor list (the search path uses
    /// batched reads instead).
    pub fn read_node(&self, node: u32) -> (r: Result<(Vec<u32>, Vec<u32>), R::Error>)
        requires
            self.wf(),
        ensures
            match r {
                Ok((vector, list)) => exists|block: Seq<u8>| #[trigger]
                    self.fetches(node, block) && vector@ == self.meta.vector_in(block, node) && list@
                        == self.meta.list_in(block, node),
                Err(e) => self.reader.fails(self.meta.block_of(node) as u64, e),
            },
            r is Ok ==> self.meta.block_of(node) < self.reader.block_total(),
    {
        let mut buf: Vec<u8> = Vec::new();
        buf.resize(BLOCK_SIZE, 0);
        let (blk, off): (u64, usize) = self.meta.locate(node);
        match self.reader.read_block(blk, buf.as_mut_slice()) {
            Ok(_) => {},
            Err(e) => {
                return Err(e);
            },
        }
        assert(self.fetches(node, buf@));
        let bytes = vstd::slice::slice_subrange(buf.as_slice(), off, off + self.meta.node_len as usize);
        let dim: usize = self.meta.dim as usize;
        Ok((decode_vector(bytes, dim), parse_neighbors(bytes, dim, self.meta.r as usize)))
    }

    /// Readies one buffer per node.
    fn prepare(&self, io_bufs: &mut Vec<BlockRead>, nodes: &Vec<u32>)
        requires
            self.wf(),
        ensures
            final(io_bufs)@.len() == nodes@.len(),
            forall|i: int|
                0 <= i < nodes@.len() ==> (#[trigger] final(io_bufs)@[i]).block_id == self.meta.block_of(nodes@[i])
                    && final(io_bufs)@[i].buf@.len() == 4096,
    {
        io_bufs.truncate(nodes.len());
        let mut i: usize = 0;
        while i < nodes.len()
            invariant
                self.wf(),
                i <= nodes@.len(),
                io_bufs@.len() <= nodes@.len(),
                i <= io_bufs@.len(),
                forall|j: int|
                    0 <= j < i ==> (#[trigger] io_bufs@[j]).block_id == self.meta.block_of(nodes@[j])
                        && io_bufs@[j].buf@.len() == 4096,
            decreases nodes@.len() - i,
        {
            let block_id: u64 = self.meta.locate(nodes[i]).0;
            if i < io_bufs.len() {
                io_bufs[i].block_id = block_id;
                io_bufs[i].buf.resize(BLOCK_SIZE, 0);
            } else {
                let mut buf: Vec<u8> = Vec::new();
                buf.resize(BLOCK_SIZE, 0);
                io_bufs.push(BlockRead { block_id, buf });
            }
            i += 1;
        }
    }

    /// Beam search over the on-disk graph: one block read per expanded node,
    /// `w` reads batched per round. Routing via `scorer` (exact RAM vectors
    /// or quantized codes); every expanded node is reranked exactly by
    /// `metric` against the full-precision vector in its block, and the
    /// returned top-k comes only from exact scores. Returns (top-k ascending,
    /// block reads). A neighbor is followed wherever the scorer and the
    /// scratch know its id, whether or not the index has such a node.
    pub fn search<S: RouteScorer, M: Fn(&[u32], &[u32]) -> u32>(
        &self,
        scorer: &S,
        metric: &M,
        query: &[u32],
        k: usize,
        ef: usize,
        w: usize,
        scratch: &mut SearchScratch,
        io_bufs: &mut Vec<BlockRead>,
    ) -> (r: Result<(Vec<(u32, u32)>, usize), SearchError<R::Error>>)
        requires
            self.wf(),
            k > 0,
            ef > 0,
            w > 0,
            query@.len() == self.meta.dim,
            old(scratch).wf(),
            self.meta.medoid < known(scorer, old(scratch)),
            covers_all(scorer, query@, scorer.points()),
            forall|a: &[u32], b: &[u32]| a@.len() == b@.len() ==> #[trigger] call_requires(*metric, (a, b)),
        ensures
            final(scratch).wf(),
            final(scratch).nodes() == old(scratch).nodes(),
            one_block_each(final(io_bufs)@),
            final(io_bufs)@.len() <= w,
            r matches Ok((top, reads)) ==> self.finds(
                scorer,
                metric,
                query@,
                k as nat,
                ef as nat,
                w as nat,
                final(scratch)@,
                top@,
                reads as nat,
            ),
            r is Ok ==> final(scratch)@.below(known(scorer, old(scratch))),
            r matches Err(SearchError::CorruptNode { node }) ==> self.asks_for(
                scorer,
                query@,
                ef as nat,
                w as nat,
                node,
            ) && self.corrupt(node, known(scorer, old(scratch))),
            r matches Err(SearchError::Read(e)) ==> self.unreadable(scorer, query@, ef as nat, w as nat, e),
    {
        let ghost n = known(scorer, old(scratch));
        let ghost score = scores(scorer, query@);
        let ghost answer = self.adjacency();
        let points: usize = scorer.num_points();
        let nodes: usize = scratch.num_nodes();
        let count: usize = if points < nodes { points } else { nodes };
        let dim: usize = self.meta.dim as usize;
        let slots: usize = self.meta.r as usize;
        let node_len: usize = self.meta.node_len as usize;
        let mut exact = TopK::new(k);
        let d0: u32 = scorer.score(query, self.meta.medoid);
        scratch.seed(self.meta.medoid, d0);
        let ghost start = scratch@;
        let ghost mut rounds: Seq<Seq<Seq<u32>>> = Seq::empty();
        let ghost mut fetched: Seq<Fetch> = Seq::empty();
        proof {
            lemma_seeded(self.meta.medoid, d0, score);
            lemma_expanded_bound(scratch@, n);
            assert(rounds.flatten() =~= lists_of(self.meta, fetched));
            assert(reranked(fetched) =~= Seq::empty());
        }
        loop
            invariant
                self.wf(),
                k > 0,
                ef > 0,
                w > 0,
                query@.len() == self.meta.dim,
                n == known(scorer, old(scratch)),
                count == n,
                dim == self.meta.dim,
                slots == self.meta.r,
                node_len == self.meta.node_len,
                scratch.wf(),
                scratch.started(),
                scratch.nodes() == old(scratch).nodes(),
                covers_all(scorer, query@, scorer.points()),
                forall|a: &[u32], b: &[u32]| a@.len() == b@.len() ==> #[trigger] call_requires(*metric, (a, b)),
                score == scores(scorer, query@),
                answer == self.adjacency(),
                start == Beam::seeded(self.meta.medoid, d0),
                d0 == scorer.distance(query@, self.meta.medoid),
                scratch@.wf(),
                scratch@.scored(score),
                scratch@.below(n),
                scratch@.pool.len() <= ef,
                scratch@.expanded.len() <= n,
                start.trace(ef as nat, w as nat, score, rounds, answer),
                start.run(ef as nat, w as nat, score, rounds) == scratch@,
                fetched.len() == scratch@.expanded.len(),
                forall|i: int| 0 <= i < fetched.len() ==> (#[trigger] fetched[i]).node == scratch@.expanded[i].1,
                self.recorded(metric, query@, fetched),
                rounds.flatten() == lists_of(self.meta, fetched),
                exact.wf(),
                exact.capacity() == k,
                exact@ == kept(reranked(fetched), k as nat),
                rounds.len() > 0 ==> one_block_each(io_bufs@) && io_bufs@.len() <= w,
            ensures
                rounds.len() > 0,
                scratch.wf(),
                scratch.nodes() == old(scratch).nodes(),
                scratch@.below(n),
                scratch@.expanded.len() <= n,
                exact@ == kept(reranked(fetched), k as nat),
                self.searched(
                    scorer,
                    metric,
                    query@,
                    k as nat,
                    ef as nat,
                    w as nat,
                    fetched,
                    rounds,
                    scratch@,
                    kept(reranked(fetched), k as nat),
                ),
            decreases n - scratch@.expanded.len(),
        {
            let ghost b = scratch@;
            let frontier = scratch.expand(w);
            proof {
                lemma_picks(b.pool, b.pool.len(), w as nat);
                assert forall|j: int| 0 <= j < frontier@.len() implies #[trigger] frontier@[j] < n by {
                    assert(b.visited.contains(b.pool[b.chosen(w as nat)[j]].id));
                }
                lemma_expand(b, w as nat);
                lemma_expanded_bound(scratch@, n);
            }
            if frontier.len() == 0 {
                proof {
                    lemma_expand_nothing(b, w as nat);
                    if rounds.len() == 0 {
                        lemma_seed_is_expanded(self.meta.medoid, d0, w as nat);
                    }
                }
                break;
            }
            self.prepare(io_bufs, &frontier);
            let ghost asked = io_bufs@;
            match self.reader.read_batch(io_bufs) {
                Ok(_) => {},
                Err(e) => {
                    proof {
                        let i = choose|i: int|
                            0 <= i < asked.len() && self.reader.fails((#[trigger] asked[i]).block_id, e);
                        assert(asked[i].block_id == self.meta.block_of(frontier@[i]));
                        assert(self.asks_after(scorer, query@, ef as nat, w as nat, rounds, frontier@[i]));
                        assert(self.asks_for(scorer, query@, ef as nat, w as nat, frontier@[i]));
                    }
                    return Err(SearchError::Read(e));
                },
            }
            let ghost blocks = io_bufs@;
            let ghost before = fetched;
            let ghost mut lists: Seq<Seq<u32>> = Seq::empty();
            let mut i: usize = 0;
            proof {
                assert(lists_of(self.meta, before) + lists =~= lists_of(self.meta, fetched));
            }
            while i < frontier.len()
                invariant
                    i <= frontier@.len(),
                    self.wf(),
                    k > 0,
                    ef > 0,
                    w > 0,
                    query@.len() == self.meta.dim,
                    n == known(scorer, old(scratch)),
                    count == n,
                    start == Beam::seeded(self.meta.medoid, scorer.distance(query@, self.meta.medoid)),
                    start.trace(ef as nat, w as nat, score, rounds, answer),
                    start.run(ef as nat, w as nat, score, rounds) == b,
                    dim == self.meta.dim,
                    slots == self.meta.r,
                    node_len == self.meta.node_len,
                    scratch.wf(),
                    scratch.started(),
                    scratch.nodes() == old(scratch).nodes(),
                    covers_all(scorer, query@, scorer.points()),
                    forall|a: &[u32], b: &[u32]| a@.len() == b@.len() ==> #[trigger] call_requires(*metric, (a, b)),
                    score == scores(scorer, query@),
                    answer == self.adjacency(),
                    frontier@ == b.frontier(w as nat),
                    forall|j: int| 0 <= j < frontier@.len() ==> #[trigger] frontier@[j] < n,
                    b.expand(w as nat).wf(),
                    b.expand(w as nat).scored(score),
                    b.expand(w as nat).pool.len() <= ef,
                    io_bufs@.len() == frontier@.len(),
                    frontier@.len() <= w,
                    one_block_each(io_bufs@),
                    forall|j: int|
                        0 <= j < frontier@.len() ==> self.fetches(frontier@[j], (#[trigger] io_bufs@[j]).buf@),
                    lists.len() == i,
                    forall|j: int| 0 <= j < i ==> answer(frontier@[j], #[trigger] lists[j]) && in_range(lists[j], n),
                    scratch@.pool.len() <= ef,
                    scratch@ == b.expand(w as nat).absorb_lists(ef as nat, score, lists),
                    fetched.len() == before.len() + i,
                    forall|j: int| 0 <= j < before.len() ==> fetched[j] == before[j],
                    forall|j: int| 0 <= j < i ==> (#[trigger] fetched[before.len() + j]).node == frontier@[j],
                    self.recorded(metric, query@, fetched),
                    lists_of(self.meta, before) + lists == lists_of(self.meta, fetched),
                    exact.wf(),
                    exact.capacity() == k,
                    exact@ == kept(reranked(fetched), k as nat),
                decreases frontier@.len() - i,
            {
                let node: u32 = frontier[i];
                let off: usize = self.meta.locate(node).1;
                let ghost block = io_bufs@[i as int].buf@;
                assert(self.fetches(node, block));
                let bytes = vstd::slice::slice_subrange(io_bufs[i].buf.as_slice(), off, off + node_len);
                let vector = decode_vector(bytes, dim);
                let d: u32 = metric(query, vector.as_slice());
                exact.push(d, node);
                let list = parse_neighbors(bytes, dim, slots);
                assert(list@ == self.meta.list_in(block, node));
                if !all_below(list.as_slice(), count) {
                    assert(self.corrupt(node, n));
                    assert(self.asks_after(scorer, query@, ef as nat, w as nat, rounds, node));
                    return Err(SearchError::CorruptNode { node });
                }
                scratch.absorb(scorer, query, ef, list.as_slice());
                proof {
                    let f = Fetch { node, block, dist: d };
                    let more = fetched.push(f);
                    assert(measures(metric, query@, self.meta.vector_in(block, node), d));
                    let next = lists.push(list@);
                    assert(next.drop_last() =~= lists);
                    assert(answer(frontier@[i as int], list@));
                    assert(lists_of(self.meta, more) =~= lists_of(self.meta, fetched).push(self.meta.list_in(block, node)));
                    assert(lists_of(self.meta, before) + next =~= (lists_of(self.meta, before) + lists).push(list@));
                    assert(reranked(more).drop_last() =~= reranked(fetched));
                    assert(reranked(more).last() == (d, node));
                    lists = next;
                    fetched = more;
                }
                i += 1;
            }
            proof {
                let next = rounds.push(lists);
                assert(next.drop_last() =~= rounds);
                rounds.lemma_flatten_push(lists);
                lemma_round(b, ef as nat, w as nat, score, lists);
                lemma_round_below(b, lists, n);
                let at = b.chosen(w as nat);
                assert forall|i: int| 0 <= i < fetched.len() implies (#[trigger] fetched[i]).node
                    == scratch@.expanded[i].1 by {
                    if i < before.len() {
                        assert(before[i].node == b.expanded[i].1);
                    } else {
                        assert(fetched[before.len() + (i - before.len())].node == frontier@[i - before.len()]);
                    }
                }
                rounds = next;
            }
        }
        let reads: usize = scratch.expanded_len();
        let top = exact.into_sorted();
        assert(self.finds(
            scorer,
            metric,
            query@,
            k as nat,
            ef as nat,
            w as nat,
            scratch@,
            top@,
            reads as nat,
        ));
        Ok((top, reads))
    }
}

/// Whether all ids of a list are below `n`.
pub fn all_below(ids: &[u32], n: usize) -> (b: bool)
    ensures
        b == in_range(ids@, n as nat),
{
    let mut i: usize = 0;
    while i < ids.len()
        invariant
            i <= ids@.len(),
            forall|j: int| 0 <= j < i ==> #[trigger] ids@[j] < n,
        decreases ids@.len() - i,
    {
        if ids[i] as usize >= n {
            return false;
        }
        i += 1;
    }
    true
}

/// How many ids both the scorer and the scratch know.
pub open spec fn known<S: RouteScorer>(scorer: &S, scratch: &SearchScratch) -> nat {
    if scorer.points() < scratch.nodes() {
        scorer.points()
    } else {
        scratch.nodes()
    }
}

/// The first round expands the entry point.
proof fn lemma_seed_is_expanded(entry: u32, d: u32, w: nat)
    requires
        w > 0,
    ensures
        Beam::seeded(entry, d).frontier(w).len() == 1,
{
    reveal_with_fuel(picks, 2);
}

/// The reader serves the blocks of `file`.
pub open spec fn holds_file<R: BlockReader>(reader: &R, file: Seq<u8>) -> bool {
    &&& reader.block_total() * 4096 == file.len()
    &&& forall|id: u64, block: Seq<u8>| #[trigger]
        reader.reads(id, block) && block.len() == 4096 && id < reader.block_total() ==> block == file_block(
            file,
            id as int,
        )
}

/// The parts of an index fit each other.
pub open spec fn matched(base: FloatVectors, graph: VamanaGraph) -> bool {
    &&& base.wf()
    &&& graph.wf()
    &&& base.count == graph.nodes()
    &&& node_size(base.dim as int, graph.r as int) <= 4096
    &&& graph.medoid < base.count
}

/// The parts of an index fit each other, and every neighbor exists.
pub open spec fn packable(base: FloatVectors, graph: VamanaGraph) -> bool {
    &&& matched(base, graph)
    &&& forall|i: int| 0 <= i < base.count ==> in_range(#[trigger] graph.list(i), base.count as nat)
}

/// An index that was written is accepted: whatever a read of its header may
/// give says what was written.
pub proof fn law_written_index_opens<R: BlockReader>(
    reader: &R,
    base: FloatVectors,
    graph: VamanaGraph,
    header: Seq<u8>,
)
    requires
        matched(base, graph),
        holds_file(reader, index_file(base, graph)),
        reader.reads(0, header),
        header.len() == 4096,
    ensures
        header_error(header, reader.block_total()) is None,
        header_meta(header) == index_meta(base, graph),
{
    law_header_roundtrip(base, graph);
    let file = index_file(base, graph);
    assert(reader.block_total() > 0) by {
        law_index_roundtrip(base, graph, graph.medoid);
    }
    assert(header == file_block(file, 0));
    assert(file.len() / 4096 == reader.block_total());
}

/// Whatever a read of a node's block may give holds the vector and the
/// neighbors that were written.
pub proof fn law_written_node_reads_back<R: BlockReader>(
    index: &DiskIndex<R>,
    base: FloatVectors,
    graph: VamanaGraph,
    node: u32,
    block: Seq<u8>,
)
    requires
        matched(base, graph),
        holds_file(&index.reader, index_file(base, graph)),
        index.meta == index_meta(base, graph),
        node < base.count,
        index.fetches(node, block),
    ensures
        index.meta.vector_in(block, node) == base.row(node as int),
        index.meta.list_in(block, node) == graph.list(node as int),
{
    law_index_roundtrip(base, graph, node);
    let file = index_file(base, graph);
    assert(index.reader.block_total() == 1 + index.meta.blocks());
    assert(block == file_block(file, index.meta.block_of(node)));
}

/// An index that was written has no corrupt nodes.
pub proof fn law_written_nodes_are_sound<R: BlockReader>(
    index: &DiskIndex<R>,
    base: FloatVectors,
    graph: VamanaGraph,
    node: u32,
)
    requires
        packable(base, graph),
        holds_file(&index.reader, index_file(base, graph)),
        index.meta == index_meta(base, graph),
        node < base.count,
    ensures
        !index.corrupt(node, base.count as nat),
{
    if index.corrupt(node, base.count as nat) {
        let block = choose|block: Seq<u8>| #[trigger]
            index.fetches(node, block) && !in_range(index.meta.list_in(block, node), base.count as nat);
        law_written_node_reads_back(index, base, graph, node, block);
        assert(in_range(graph.list(node as int), base.count as nat));
    }
}

/// A search over an index that was written asks for the blocks of nodes that
/// exist only. So where the reader does not fail on the blocks of the index,
/// the search does not fail either.
pub proof fn law_written_index_is_searchable<R: BlockReader, S: RouteScorer>(
    index: &DiskIndex<R>,
    base: FloatVectors,
    graph: VamanaGraph,
    scorer: &S,
    query: Seq<u32>,
    ef: nat,
    w: nat,
    n: nat,
    e: R::Error,
)
    requires
        ef > 0,
        packable(base, graph),
        holds_file(&index.reader, index_file(base, graph)),
        index.meta == index_meta(base, graph),
        base.count <= n,
        forall|id: u64| id < index.reader.block_total() ==> !#[trigger] index.reader.fails(id, e),
    ensures
        forall|node: u32| #[trigger] index.asks_for(scorer, query, ef, w, node) ==> node < base.count,
        !index.unreadable(scorer, query, ef, w, e),
        forall|node: u32| #[trigger] index.asks_for(scorer, query, ef, w, node) ==> !index.corrupt(node, n),
{
    let count = base.count as nat;
    let score = scores(scorer, query);
    let start = Beam::seeded(graph.medoid, score(graph.medoid));
    lemma_seeded(graph.medoid, score(graph.medoid), score);
    assert forall|id: u32, l: Seq<u32>| id < count && #[trigger] index.adjacency()(id, l) implies in_range(
        l,
        count,
    ) by {
        let block = choose|block: Seq<u8>| #[trigger] index.fetches(id, block) && l == index.meta.list_in(block, id);
        law_written_node_reads_back(index, base, graph, id, block);
        assert(in_range(graph.list(id as int), count));
    }
    assert forall|node: u32| #[trigger] index.asks_for(scorer, query, ef, w, node) implies node < base.count
        && !index.corrupt(node, n) by {
        let rounds = choose|rounds: Seq<Seq<Seq<u32>>>| #[trigger]
            index.asks_after(scorer, query, ef, w, rounds, node);
        lemma_trace_weaken(start, ef, w, score, rounds, index.adjacency(), index.adjacency(), count);
        lemma_run(start, ef, w, score, rounds);
        let b = start.run(ef, w, score, rounds);
        lemma_picks(b.pool, b.pool.len(), w);
        let j = choose|j: int| 0 <= j < b.frontier(w).len() && b.frontier(w)[j] == node;
        assert(b.visited.contains(b.pool[b.chosen(w)[j]].id));
        law_written_nodes_are_sound(index, base, graph, node);
        if index.corrupt(node, n) {
            let block = choose|block: Seq<u8>| #[trigger]
                index.fetches(node, block) && !in_range(index.meta.list_in(block, node), n);
            let list = index.meta.list_in(block, node);
            assert(in_range(list, count));
            assert(in_range(list, n));
        }
    }
    if index.unreadable(scorer, query, ef, w, e) {
        let node = choose|node: u32| #[trigger]
            index.asks_for(scorer, query, ef, w, node) && index.reader.fails(index.meta.block_of(node) as u64, e);
        law_index_roundtrip(base, graph, node);
    }
}

/// Every returned distance is exact: it is the metric's, for the query and
/// the vector that was read for the returned node.
pub proof fn law_returned_distances_are_exact<R: BlockReader, S: RouteScorer, M: Fn(&[u32], &[u32]) -> u32>(
    index: &DiskIndex<R>,
    scorer: &S,
    metric: &M,
    query: Seq<u32>,
    k: nat,
    ef: nat,
    w: nat,
    end: Beam,
    top: Seq<(u32, u32)>,
    reads: nat,
    j: int,
)
    requires
        k > 0,
        index.finds(scorer, metric, query, k, ef, w, end, top, reads),
        0 <= j < top.len(),
    ensures
        exists|block: Seq<u8>| #[trigger]
            index.fetches(top[j].1, block) && measures(metric, query, index.meta.vector_in(block, top[j].1), top[j].0),
        end.has_expanded(top[j].1),
{
    let (fetched, rounds) = choose|fetched: Seq<Fetch>, rounds: Seq<Seq<Seq<u32>>>|
        #[trigger] index.searched(scorer, metric, query, k, ef, w, fetched, rounds, end, top) && reads == fetched.len();
    lemma_kept_offered(reranked(fetched), k);
    assert(reranked(fetched).contains(top[j]));
    let i = choose|i: int| 0 <= i < reranked(fetched).len() && reranked(fetched)[i] == top[j];
    let f = fetched[i];
    assert(index.fetches(f.node, f.block));
    assert(end.expanded[i].1 == top[j].1);
}

/// A search over a written index takes the course of a search over the graph
/// in memory, with as many reads as the other has hops.
pub proof fn law_disk_search_matches_memory<R: BlockReader, S: RouteScorer, M: Fn(&[u32], &[u32]) -> u32>(
    index: &DiskIndex<R>,
    base: FloatVectors,
    graph: VamanaGraph,
    scorer: &S,
    metric: &M,
    query: Seq<u32>,
    k: nat,
    ef: nat,
    w: nat,
    end: Beam,
    top: Seq<(u32, u32)>,
    reads: nat,
    answer: spec_fn(u32, Seq<u32>) -> bool,
    rounds: Seq<Seq<Seq<u32>>>,
    memory_end: Beam,
)
    requires
        ef > 0,
        packable(base, graph),
        holds_file(&index.reader, index_file(base, graph)),
        index.meta == index_meta(base, graph),
        index.finds(scorer, metric, query, k, ef, w, end, top, reads),
        forall|id: u32, l: Seq<u32>| id < base.count && #[trigger] answer(id, l) ==> l == graph.list(id as int),
        Beam::seeded(graph.medoid, scorer.distance(query, graph.medoid)).settles(
            ef,
            w,
            scores(scorer, query),
            rounds,
            answer,
            memory_end,
        ),
    ensures
        end == memory_end,
        reads == memory_end.expanded.len(),
        forall|j: int| 0 <= j < rounds.len() ==> lists_in_range(#[trigger] rounds[j], base.count as nat),
{
    let n = base.count as nat;
    let (fetched, disk_rounds) = choose|fetched: Seq<Fetch>, rounds: Seq<Seq<Seq<u32>>>|
        #[trigger] index.searched(scorer, metric, query, k, ef, w, fetched, rounds, end, top) && reads == fetched.len();
    let lists = |id: u32| graph.list(id as int);
    assert forall|id: u32, l: Seq<u32>| id < n && #[trigger] index.adjacency()(id, l) implies l == lists(id) by {
        let block = choose|block: Seq<u8>| #[trigger] index.fetches(id, block) && l == index.meta.list_in(block, id);
        law_written_node_reads_back(index, base, graph, id, block);
    }
    assert forall|id: u32| id < n implies in_range(#[trigger] lists(id), n) by {
        assert(in_range(graph.list(id as int), n));
    }
    law_one_graph_one_search(
        graph.medoid,
        ef,
        w,
        scores(scorer, query),
        lists,
        n,
        index.adjacency(),
        disk_rounds,
        end,
        answer,
        rounds,
        memory_end,
    );
}

/// Where routing is exact, a search over a written index returns the best of
/// the nodes that the search in memory expands.
pub proof fn law_exact_routing_returns_best<R: BlockReader, S: RouteScorer, M: Fn(&[u32], &[u32]) -> u32>(
    index: &DiskIndex<R>,
    base: FloatVectors,
    graph: VamanaGraph,
    scorer: &S,
    metric: &M,
    query: Seq<u32>,
    k: nat,
    ef: nat,
    w: nat,
    end: Beam,
    top: Seq<(u32, u32)>,
    reads: nat,
    answer: spec_fn(u32, Seq<u32>) -> bool,
    rounds: Seq<Seq<Seq<u32>>>,
    memory_end: Beam,
)
    requires
        0 < k <= ef,
        w > 0,
        packable(base, graph),
        holds_file(&index.reader, index_file(base, graph)),
        index.meta == index_meta(base, graph),
        index.finds(scorer, metric, query, k, ef, w, end, top, reads),
        forall|id: u32, l: Seq<u32>| id < base.count && #[trigger] answer(id, l) ==> l == graph.list(id as int),
        Beam::seeded(graph.medoid, scorer.distance(query, graph.medoid)).settles(
            ef,
            w,
            scores(scorer, query),
            rounds,
            answer,
            memory_end,
        ),
        forall|id: u32, d: u32|
            id < base.count && #[trigger] measures(metric, query, base.row(id as int), d) ==> d == scorer.distance(
                query,
                id,
            ),
    ensures
        top == kept(memory_end.expanded, k),
        end == memory_end,
        reads == memory_end.expanded.len(),
{
    let n = base.count as nat;
    let score = scores(scorer, query);
    let entry = graph.medoid;
    law_disk_search_matches_memory(
        index,
        base,
        graph,
        scorer,
        metric,
        query,
        k,
        ef,
        w,
        end,
        top,
        reads,
        answer,
        rounds,
        memory_end,
    );
    let (fetched, disk_rounds) = choose|fetched: Seq<Fetch>, rounds: Seq<Seq<Seq<u32>>>|
        #[trigger] index.searched(scorer, metric, query, k, ef, w, fetched, rounds, end, top) && reads == fetched.len();
    let start = Beam::seeded(entry, score(entry));
    lemma_run(start, ef, w, score, rounds);
    lemma_run_below(start, ef, w, score, rounds, n);
    assert forall|i: int| 0 <= i < fetched.len() implies reranked(fetched)[i] == end.expanded[i] by {
        let f = fetched[i];
        assert(f.node == end.expanded[i].1);
        assert(end.visited.contains(end.expanded[i].1));
        assert(index.fetches(f.node, f.block));
        law_written_node_reads_back(index, base, graph, f.node, f.block);
        assert(measures(metric, query, base.row(f.node as int), f.dist));
        assert(end.expanded[i].0 == score(end.expanded[i].1));
    }
    assert(reranked(fetched) =~= end.expanded);
}

/// Where routing is exact, a search over a written index returns results that
/// are as close, place by place, as the head of the pool of the search in
/// memory. The distances of the nodes that it saw have to be numbers.
pub proof fn law_exact_routing_is_as_close<R: BlockReader, S: RouteScorer, M: Fn(&[u32], &[u32]) -> u32>(
    index: &DiskIndex<R>,
    base: FloatVectors,
    graph: VamanaGraph,
    scorer: &S,
    metric: &M,
    query: Seq<u32>,
    k: nat,
    ef: nat,
    w: nat,
    end: Beam,
    top: Seq<(u32, u32)>,
    reads: nat,
    answer: spec_fn(u32, Seq<u32>) -> bool,
    rounds: Seq<Seq<Seq<u32>>>,
    memory_end: Beam,
)
    requires
        0 < k <= ef,
        w > 0,
        packable(base, graph),
        holds_file(&index.reader, index_file(base, graph)),
        index.meta == index_meta(base, graph),
        index.finds(scorer, metric, query, k, ef, w, end, top, reads),
        forall|id: u32, l: Seq<u32>| id < base.count && #[trigger] answer(id, l) ==> l == graph.list(id as int),
        Beam::seeded(graph.medoid, scorer.distance(query, graph.medoid)).settles(
            ef,
            w,
            scores(scorer, query),
            rounds,
            answer,
            memory_end,
        ),
        forall|id: u32, d: u32|
            id < base.count && #[trigger] measures(metric, query, base.row(id as int), d) ==> d == scorer.distance(
                query,
                id,
            ),
        numbers_on(scores(scorer, query), memory_end.visited),
    ensures
        top.len() == (if k < memory_end.pool.len() { k } else { memory_end.pool.len() }),
        forall|j: int|
            0 <= j < top.len() ==> position((#[trigger] top[j]).0) == position(memory_end.pool[j].dist),
{
    law_exact_routing_returns_best(
        index,
        base,
        graph,
        scorer,
        metric,
        query,
        k,
        ef,
        w,
        end,
        top,
        reads,
        answer,
        rounds,
        memory_end,
    );
    law_expanded_are_as_close(graph.medoid, k, ef, w, scores(scorer, query), rounds);
}

/// Where moreover no two of these distances tie, it returns the head of that
/// pool.
pub proof fn law_exact_routing_returns_pool<R: BlockReader, S: RouteScorer, M: Fn(&[u32], &[u32]) -> u32>(
    index: &DiskIndex<R>,
    base: FloatVectors,
    graph: VamanaGraph,
    scorer: &S,
    metric: &M,
    query: Seq<u32>,
    k: nat,
    ef: nat,
    w: nat,
    end: Beam,
    top: Seq<(u32, u32)>,
    reads: nat,
    answer: spec_fn(u32, Seq<u32>) -> bool,
    rounds: Seq<Seq<Seq<u32>>>,
    memory_end: Beam,
)
    requires
        0 < k <= ef,
        w > 0,
        packable(base, graph),
        holds_file(&index.reader, index_file(base, graph)),
        index.meta == index_meta(base, graph),
        index.finds(scorer, metric, query, k, ef, w, end, top, reads),
        forall|id: u32, l: Seq<u32>| id < base.count && #[trigger] answer(id, l) ==> l == graph.list(id as int),
        Beam::seeded(graph.medoid, scorer.distance(query, graph.medoid)).settles(
            ef,
            w,
            scores(scorer, query),
            rounds,
            answer,
            memory_end,
        ),
        forall|id: u32, d: u32|
            id < base.count && #[trigger] measures(metric, query, base.row(id as int), d) ==> d == scorer.distance(
                query,
                id,
            ),
        distinct_on(scores(scorer, query), memory_end.visited),
    ensures
        top == pairs_of(memory_end.pool).take(
            if k < memory_end.pool.len() { k as int } else { memory_end.pool.len() as int },
        ),
{
    law_exact_routing_returns_best(
        index,
        base,
        graph,
        scorer,
        metric,
        query,
        k,
        ef,
        w,
        end,
        top,
        reads,
        answer,
        rounds,
        memory_end,
    );
    law_expanded_hold_the_best(graph.medoid, k, ef, w, scores(scorer, query), rounds);
}

/// The node's block was read, and the vector in it measured from the query.
pub open spec fn was_measured<R: BlockReader, M: Fn(&[u32], &[u32]) -> u32>(
    index: &DiskIndex<R>,
    metric: &M,
    query: Seq<u32>,
    e: (u32, u32),
) -> bool {
    exists|block: Seq<u8>, s: &[u32], t: &[u32]|
        block.len() == 4096 && #[trigger] index.reader.reads(
            (1 + e.1 as int / index.meta.nodes_per_block as int) as u64,
            block,
        ) && s@ == query && t@ == index.meta.vector_in(block, e.1) && #[trigger] call_ensures(*metric, (s, t), e.0)
}

/// To measure two vectors is to give both, whole and in this order, to the
/// metric.
pub proof fn law_measuring_calls_the_metric<M: Fn(&[u32], &[u32]) -> u32>(
    metric: &M,
    a: Seq<u32>,
    b: Seq<u32>,
    d: u32,
)
    ensures
        measures(metric, a, b, d) <==> exists|s: &[u32], t: &[u32]|
            s@ == a && t@ == b && #[trigger] call_ensures(*metric, (s, t), d),
{
}

/// A search from the entry point goes by the scorer and along the lists in
/// the blocks. One block is read for every expanded node, its vector is
/// measured, and the result is the best of all that was measured.
pub proof fn law_search_measures_what_it_expands<R: BlockReader, S: RouteScorer, M: Fn(&[u32], &[u32]) -> u32>(
    index: &DiskIndex<R>,
    scorer: &S,
    metric: &M,
    query: Seq<u32>,
    k: nat,
    ef: nat,
    w: nat,
    end: Beam,
    top: Seq<(u32, u32)>,
    reads: nat,
    score: spec_fn(u32) -> u32,
    answer: spec_fn(u32, Seq<u32>) -> bool,
)
    requires
        index.finds(scorer, metric, query, k, ef, w, end, top, reads),
        forall|id: u32| #[trigger] score(id) == scorer.distance(query, id),
        forall|id: u32, l: Seq<u32>| #[trigger]
            answer(id, l) <==> exists|block: Seq<u8>|
                block.len() == 4096 && #[trigger] index.reader.reads(
                    (1 + id as int / index.meta.nodes_per_block as int) as u64,
                    block,
                ) && l == index.meta.list_in(block, id),
    ensures
        reads == end.expanded.len(),
        exists|rounds: Seq<Seq<Seq<u32>>>|
            Beam::seeded(index.meta.medoid, score(index.meta.medoid)).settles(ef, w, score, rounds, answer, end)
                && #[trigger] rounds.flatten().len() == reads,
        exists|pairs: Seq<(u32, u32)>|
            top == #[trigger] kept(pairs, k) && pairs.len() == reads && forall|i: int|
                0 <= i < reads ==> (#[trigger] pairs[i]).1 == end.expanded[i].1 && was_measured(
                    index,
                    metric,
                    query,
                    pairs[i],
                ),
{
    let (fetched, rounds) = choose|fetched: Seq<Fetch>, rounds: Seq<Seq<Seq<u32>>>|
        #[trigger] index.searched(scorer, metric, query, k, ef, w, fetched, rounds, end, top) && reads == fetched.len();
    assert(score =~= scores(scorer, query));
    assert forall|id: u32, l: Seq<u32>| #[trigger] answer(id, l) == (index.adjacency())(id, l) by {
        if (index.adjacency())(id, l) {
            let block = choose|block: Seq<u8>| #[trigger]
                index.fetches(id, block) && l == index.meta.list_in(block, id);
            assert(index.reader.reads((1 + id as int / index.meta.nodes_per_block as int) as u64, block));
        }
        if answer(id, l) {
            let block = choose|block: Seq<u8>|
                block.len() == 4096 && #[trigger] index.reader.reads(
                    (1 + id as int / index.meta.nodes_per_block as int) as u64,
                    block,
                ) && l == index.meta.list_in(block, id);
            assert(index.fetches(id, block));
        }
    }
    assert(answer =~= index.adjacency());
    let pairs = reranked(fetched);
    assert forall|i: int| 0 <= i < reads implies (#[trigger] pairs[i]).1 == end.expanded[i].1 && was_measured(
        index,
        metric,
        query,
        pairs[i],
    ) by {
        let f = fetched[i];
        assert(index.fetches(f.node, f.block));
        assert(index.reader.reads((1 + f.node as int / index.meta.nodes_per_block as int) as u64, f.block));
        let vector = index.meta.vector_in(f.block, f.node);
        assert(measures(metric, query, vector, f.dist));
        let (s, t) = choose|s: &[u32], t: &[u32]|
            s@ == query && t@ == vector && #[trigger] call_ensures(*metric, (s, t), f.dist);
        assert(s@ == query && t@ == vector && call_ensures(*metric, (s, t), pairs[i].0));
    }
    assert(top == kept(pairs, k));
    assert(rounds.flatten().len() == reads);
}

/// A search that fails does so for a reason: it asked for a node that stood in
/// a frontier on its way from the entry point, and either the read of the
/// node's block fails that way, or the list in the block names an id that the
/// scorer and the scratch do not both know.
pub proof fn law_failed_searches_have_a_cause<R: BlockReader, S: RouteScorer>(
    index: &DiskIndex<R>,
    scorer: &S,
    scratch: &SearchScratch,
    query: Seq<u32>,
    ef: nat,
    w: nat,
    node: u32,
    e: R::Error,
)
    ensures
        index.unreadable(scorer, query, ef, w, e) <==> exists|node: u32| #[trigger]
            index.asks_for(scorer, query, ef, w, node) && index.reader.fails(
                (1 + node as int / index.meta.nodes_per_block as int) as u64,
                e,
            ),
        index.corrupt(node, known(scorer, scratch)) <==> exists|block: Seq<u8>, i: int|
            block.len() == 4096 && #[trigger] index.reader.reads(
                (1 + node as int / index.meta.nodes_per_block as int) as u64,
                block,
            ) && 0 <= i < index.meta.list_in(block, node).len() && (#[trigger] index.meta.list_in(block, node)[i]
                >= scorer.points() || index.meta.list_in(block, node)[i] >= scratch.nodes()),
        index.asks_for(scorer, query, ef, w, node) <==> exists|rounds: Seq<Seq<Seq<u32>>>|
            Beam::seeded(index.meta.medoid, scorer.distance(query, index.meta.medoid)).trace(
                ef,
                w,
                scores(scorer, query),
                rounds,
                index.adjacency(),
            ) && #[trigger] Beam::seeded(index.meta.medoid, scorer.distance(query, index.meta.medoid)).run(
                ef,
                w,
                scores(scorer, query),
                rounds,
            ).frontier(w).contains(node),
{
    let start = Beam::seeded(index.meta.medoid, scorer.distance(query, index.meta.medoid));
    let score = scores(scorer, query);
    let n = known(scorer, scratch);
    if index.corrupt(node, n) {
        let block = choose|block: Seq<u8>| #[trigger]
            index.fetches(node, block) && !in_range(index.meta.list_in(block, node), n);
        let list = index.meta.list_in(block, node);
        let i = choose|i: int| 0 <= i < list.len() && #[trigger] list[i] >= n;
        assert(index.reader.reads((1 + node as int / index.meta.nodes_per_block as int) as u64, block));
        assert(index.meta.list_in(block, node)[i] >= n);
    }
    if exists|block: Seq<u8>, i: int|
        block.len() == 4096 && #[trigger] index.reader.reads(
            (1 + node as int / index.meta.nodes_per_block as int) as u64,
            block,
        ) && 0 <= i < index.meta.list_in(block, node).len() && (#[trigger] index.meta.list_in(block, node)[i]
            >= scorer.points() || index.meta.list_in(block, node)[i] >= scratch.nodes()) {
        let (block, i) = choose|block: Seq<u8>, i: int|
            block.len() == 4096 && #[trigger] index.reader.reads(
                (1 + node as int / index.meta.nodes_per_block as int) as u64,
                block,
            ) && 0 <= i < index.meta.list_in(block, node).len() && (#[trigger] index.meta.list_in(block, node)[i]
                >= scorer.points() || index.meta.list_in(block, node)[i] >= scratch.nodes());
        assert(index.fetches(node, block));
    }
    if index.asks_for(scorer, query, ef, w, node) {
        let rounds = choose|rounds: Seq<Seq<Seq<u32>>>| #[trigger]
            index.asks_after(scorer, query, ef, w, rounds, node);
        assert(start.run(ef, w, score, rounds).frontier(w).contains(node));
    }
    if exists|rounds: Seq<Seq<Seq<u32>>>|
        start.trace(ef, w, score, rounds, index.adjacency()) && #[trigger] start.run(ef, w, score, rounds).frontier(
            w,
        ).contains(node) {
        let rounds = choose|rounds: Seq<Seq<Seq<u32>>>|
            start.trace(ef, w, score, rounds, index.adjacency()) && #[trigger] start.run(
                ef,
                w,
                score,
                rounds,
            ).frontier(w).contains(node);
        assert(index.asks_after(scorer, query, ef, w, rounds, node));
    }
}

} // verus!
