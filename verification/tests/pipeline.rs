//! The pipelined search must match the round-based single-query search: same
//! results, same read counts, while interleaving many queries.

use nvvec::brute;
use nvvec::dataset::FloatVectors;
use nvvec::disk::DiskIndex;
use nvvec::distance::l2_sq;
use nvvec::graph::VamanaGraph;
use nvvec::io::{block_count, validate, BlockReader, RequestError, BLOCK_SIZE};
use nvvec::layout::{write_disk_index, DiskIndexMeta};
use nvvec::pipeline::{Pipeline, PipelineParams};
use nvvec::quant::{Sq8Codebook, Sq8Scorer};
use nvvec::scorer::{ExactScorer, RouteScorer};
use nvvec::search::SearchScratch;
use nvvec::vamana::{build, splitmix64, BuildParams};

type Exact = ExactScorer<fn(u32, u32, u32) -> u32, fn(u32, u32) -> u32>;

fn step(acc: u32, x: u32, y: u32) -> u32 {
    let d = f32::from_bits(x) - f32::from_bits(y);
    (f32::from_bits(acc) + d * d).to_bits()
}

fn plus(a: u32, b: u32) -> u32 {
    (f32::from_bits(a) + f32::from_bits(b)).to_bits()
}

fn metric(a: &[u32], b: &[u32]) -> u32 {
    l2_sq(a, b, &step, &plus)
}

fn occludes(alpha: u32, d_ij: u32, d_pj: u32) -> bool {
    let a = f32::from_bits(alpha);
    a * a * f32::from_bits(d_ij) <= f32::from_bits(d_pj)
}

fn random_vectors(n: usize, dim: usize, seed: u64) -> FloatVectors {
    let mut state = seed;
    let data: Vec<u32> = (0..n * dim)
        .map(|_| ((splitmix64(&mut state) >> 40) as f32 / (1u64 << 24) as f32).to_bits())
        .collect();
    FloatVectors::from_raw(dim, data)
}

fn exact(vectors: FloatVectors) -> Exact {
    ExactScorer { vectors, step, plus }
}

fn build_graph(scorer: &Exact, r: usize, l_build: usize) -> VamanaGraph {
    let base = &scorer.vectors;
    let mut sums = vec![0f64; base.dim];
    for row in base.iter() {
        for (s, x) in sums.iter_mut().zip(row) {
            *s += f32::from_bits(*x) as f64;
        }
    }
    let mean: Vec<u32> = sums.iter().map(|s| ((s / base.count as f64) as f32).to_bits()).collect();
    let params = BuildParams { r, l_build, alpha: 1.2f32.to_bits() };
    build(scorer, base, &mean, &occludes, &params)
}

/// Blocks held in memory.
struct MemoryBlocks {
    content: Vec<u8>,
    num_blocks: u64,
}

impl MemoryBlocks {
    fn open(content: Vec<u8>) -> MemoryBlocks {
        let num_blocks = block_count(content.len() as u64).unwrap();
        MemoryBlocks { content, num_blocks }
    }
}

impl BlockReader for MemoryBlocks {
    type Error = RequestError;

    fn num_blocks(&self) -> u64 {
        self.num_blocks
    }

    fn read_block(&self, block_id: u64, buf: &mut [u8]) -> Result<(), RequestError> {
        let at = validate(buf.len(), block_id, self.num_blocks)? as usize;
        buf.copy_from_slice(&self.content[at..at + BLOCK_SIZE]);
        Ok(())
    }
}

fn sq8_width(lo: u32, hi: u32) -> u32 {
    ((f32::from_bits(hi) - f32::from_bits(lo)) / 255.0).to_bits()
}

fn sq8_encode(x: u32, lo: u32, s: u32) -> u8 {
    ((f32::from_bits(x) - f32::from_bits(lo)) / f32::from_bits(s)).round().clamp(0.0, 255.0) as u8
}

fn sq8_step(acc: u32, q: u32, lo: u32, s: u32, c: u8) -> u32 {
    let rec = f32::from_bits(lo) + f32::from_bits(s) * c as f32;
    let diff = f32::from_bits(q) - rec;
    (f32::from_bits(acc) + diff * diff).to_bits()
}

/// How the reads that are in flight land.
#[derive(Clone, Copy)]
enum Landing {
    /// In the order of the requests, all at once.
    InOrder,
    /// The last one first, one at a time.
    LastFirst,
    /// A random one, one at a time.
    Random,
}

/// Runs all queries through the index, and returns the results together with
/// the greatest number of reads in flight.
fn search_pipelined<S: RouteScorer>(
    meta: &DiskIndexMeta,
    file: &[u8],
    scorer: &S,
    queries: &FloatVectors,
    params: &PipelineParams,
    landing: Landing,
) -> (Vec<(Vec<(u32, u32)>, usize)>, usize) {
    let mut state = 99u64;
    let mut queue: Vec<(u64, u64)> = Vec::new();
    let mut deepest = 0;
    let mut pipeline = Pipeline::start(meta, scorer, queries, params);
    loop {
        queue.extend(pipeline.advance(scorer, queries));
        deepest = deepest.max(queue.len());
        if pipeline.is_done() {
            break;
        }
        assert!(!queue.is_empty(), "nothing in flight");
        let landed: Vec<(u64, u64)> = match landing {
            Landing::InOrder => queue.drain(..).collect(),
            Landing::LastFirst => vec![queue.pop().unwrap()],
            Landing::Random => {
                let at = splitmix64(&mut state) as usize % queue.len();
                vec![queue.swap_remove(at)]
            }
        };
        for (block, tag) in landed {
            let at = block as usize * BLOCK_SIZE;
            pipeline.complete(queries, &metric, tag, &file[at..at + BLOCK_SIZE]).unwrap();
        }
    }
    assert!(queue.is_empty());
    (pipeline.into_results(), deepest)
}

#[test]
fn pipelined_matches_batched_search() {
    let (n, dim, k, ef, w) = (1500, 24, 10, 50, 2);
    let base = exact(random_vectors(n, dim, 31));
    let queries = random_vectors(120, dim, 32);
    let graph = build_graph(&base, 16, 40);
    let (_, file) = write_disk_index(&base.vectors, &graph).unwrap();

    // reference: per-query round-based search through the index
    let index = DiskIndex::with_reader(MemoryBlocks::open(file.clone())).ok().unwrap();
    let mut scratch = SearchScratch::new(n);
    let mut io_bufs = Vec::new();
    let mut expected = Vec::new();
    for qi in 0..queries.count {
        expected.push(
            index
                .search(&base, &metric, queries.get(qi), k, ef, w, &mut scratch, &mut io_bufs)
                .ok()
                .unwrap(),
        );
    }

    // pipelined: 8 queries in flight over one queue
    let concurrency = 8;
    for landing in [Landing::InOrder, Landing::LastFirst, Landing::Random] {
        let (got, deepest) = search_pipelined(
            &index.meta,
            &file,
            &base,
            &queries,
            &PipelineParams { k, ef, w, concurrency },
            landing,
        );
        assert!(deepest <= concurrency * w);
        assert_eq!(got.len(), expected.len());
        for (qi, ((got_res, got_reads), (exp_res, exp_reads))) in
            got.iter().zip(expected.iter()).enumerate()
        {
            assert_eq!(got_reads, exp_reads, "query {qi}: read count diverged");
            assert_eq!(got_res, exp_res, "query {qi}: results diverged");
        }
    }
}

#[test]
fn sq8_routing_with_exact_rerank_holds_recall() {
    let (n, dim, k, ef, w, c) = (1500, 24, 10, 50, 2, 8);
    let base = exact(random_vectors(n, dim, 51));
    let queries = random_vectors(100, dim, 52);
    let graph = build_graph(&base, 16, 40);
    let (meta, file) = write_disk_index(&base.vectors, &graph).unwrap();
    let exact_gt = brute::search(&base, n, &queries, k);

    let mut recalls = Vec::new();
    let codebook = Sq8Scorer {
        codebook: Sq8Codebook::train(&base.vectors, &sq8_width, &sq8_encode),
        step: sq8_step,
    };
    assert!(codebook.memory_bytes() * 3 < base.vectors.count * base.vectors.dim * 4);

    // run once with exact routing, once with sq8 routing
    for use_sq8 in [false, true] {
        let params = PipelineParams { k, ef, w, concurrency: c };
        let (out, _) = if use_sq8 {
            search_pipelined(&meta, &file, &codebook, &queries, &params, Landing::Random)
        } else {
            search_pipelined(&meta, &file, &base, &queries, &params, Landing::Random)
        };

        let mut hits = 0;
        for (qi, (res, _)) in out.iter().enumerate() {
            // returned distances must be EXACT regardless of routing scorer
            for &(dist, id) in res {
                let true_dist = metric(queries.get(qi), base.vectors.get(id as usize));
                assert_eq!(dist, true_dist, "query {qi} id {id}: rerank not exact");
            }
            let truth: Vec<u32> = exact_gt[qi].iter().map(|&(_, id)| id).collect();
            hits += res.iter().filter(|(_, id)| truth.contains(id)).count();
        }
        recalls.push(hits as f64 / (out.len() * k) as f64);
    }
    let (exact_recall, sq8_recall) = (recalls[0], recalls[1]);
    assert!(
        sq8_recall >= exact_recall - 0.03,
        "sq8 routing lost too much recall: {sq8_recall} vs {exact_recall}"
    );
}

#[test]
fn pipelined_handles_more_concurrency_than_queries() {
    let (n, dim) = (600, 8);
    let base = exact(random_vectors(n, dim, 41));
    let queries = random_vectors(3, dim, 42);
    let graph = build_graph(&base, 8, 20);
    let (meta, file) = write_disk_index(&base.vectors, &graph).unwrap();
    let (got, deepest) = search_pipelined(
        &meta,
        &file,
        &base,
        &queries,
        &PipelineParams { k: 5, ef: 20, w: 4, concurrency: 16 },
        Landing::InOrder,
    );
    assert!(deepest <= 3 * 4);
    assert_eq!(got.len(), 3);
    for (res, reads) in &got {
        assert_eq!(res.len(), 5);
        assert!(*reads > 0);
    }
}

/// A path of four points, and its index.
fn path() -> (Exact, DiskIndexMeta, Vec<u8>) {
    let points: Vec<u32> = [0.0f32, 1.0, 2.0, 3.0].iter().map(|x| x.to_bits()).collect();
    let base = FloatVectors::from_raw(1, points);
    let graph = VamanaGraph::from_adjacency(2, 0, vec![vec![1], vec![0, 2], vec![1, 3], vec![2]]);
    let (meta, file) = write_disk_index(&base, &graph).unwrap();
    (exact(base), meta, file)
}

#[test]
fn tags_name_the_slot_and_the_node() {
    let (base, meta, file) = path();
    let queries = FloatVectors::from_raw(1, vec![3.0f32.to_bits(), 0]);
    let params = PipelineParams { k: 1, ef: 4, w: 1, concurrency: 2 };
    let mut p = Pipeline::start(&meta, &base, &queries, &params);
    // both queries start at node 0, which lies in block 1
    assert_eq!(p.advance(&base, &queries), vec![(1, 0), (1, 1)]);
    // while both wait, there is nothing more to ask for
    assert_eq!(p.advance(&base, &queries), vec![]);
    p.complete(&queries, &metric, 1, &file[BLOCK_SIZE..]).unwrap();
    assert_eq!(p.advance(&base, &queries), vec![(1, 1 + (1 << 16))]);
    p.complete(&queries, &metric, 0, &file[BLOCK_SIZE..]).unwrap();
    assert_eq!(p.advance(&base, &queries), vec![(1, 1 << 16)]);
    assert!(!p.is_done());
}

#[test]
fn a_finished_query_hands_over_its_slot() {
    let (base, meta, file) = path();
    let queries = FloatVectors::from_raw(1, (0..4).map(|i| (i as f32).to_bits()).collect());
    let params = PipelineParams { k: 2, ef: 4, w: 2, concurrency: 1 };
    let (got, deepest) = search_pipelined(&meta, &file, &base, &queries, &params, Landing::LastFirst);
    assert!(deepest <= 2);
    let best: Vec<u32> = got.iter().map(|(top, _)| top[0].1).collect();
    assert_eq!(best, vec![0, 1, 2, 3]);
    assert!(got.iter().all(|(_, reads)| *reads == 4));
}

#[test]
fn without_queries_there_is_nothing_to_do() {
    let (base, meta, _) = path();
    let queries = FloatVectors::from_raw(1, Vec::new());
    let params = PipelineParams { k: 1, ef: 1, w: 1, concurrency: 4 };
    let mut p = Pipeline::start(&meta, &base, &queries, &params);
    assert_eq!(p.advance(&base, &queries), vec![]);
    assert!(p.is_done());
    assert_eq!(p.into_results(), vec![]);
    // nothing is asked of the parameters
    let params = PipelineParams { k: 0, ef: 0, w: 0, concurrency: 0 };
    let mut p = Pipeline::start(&meta, &base, &queries, &params);
    assert_eq!(p.advance(&base, &queries), vec![]);
    assert!(p.is_done());
    assert_eq!(p.into_results(), vec![]);
}

#[test]
fn a_stray_neighbor_is_followed_where_it_can_be_scored() {
    let (_, meta, mut file) = path();
    file[BLOCK_SIZE + 8] = 6;
    let queries = FloatVectors::from_raw(1, vec![1.0f32.to_bits()]);
    let params = PipelineParams { k: 4, ef: 4, w: 1, concurrency: 1 };
    let wide = exact(random_vectors(7, 1, 3));
    // node 6 would lie behind the last node of its block, where all is zero
    let (got, _) = search_pipelined(&meta, &file, &wide, &queries, &params, Landing::InOrder);
    let one = 1.0f32.to_bits();
    assert_eq!(got, vec![(vec![(one, 0), (one, 6)], 2)]);

    let narrow = exact(random_vectors(6, 1, 3));
    let mut p = Pipeline::start(&meta, &narrow, &queries, &params);
    let reads = p.advance(&narrow, &queries);
    assert_eq!(p.complete(&queries, &metric, reads[0].1, &file[BLOCK_SIZE..]), Err(0));
}

#[test]
fn a_block_with_a_stray_neighbor_is_refused() {
    let (base, meta, mut file) = path();
    // node 0: 4 bytes of vector, 4 of degree, then its neighbor
    file[BLOCK_SIZE + 8] = 200;
    let queries = FloatVectors::from_raw(1, vec![0]);
    let params = PipelineParams { k: 1, ef: 4, w: 1, concurrency: 1 };
    let mut p = Pipeline::start(&meta, &base, &queries, &params);
    let reads = p.advance(&base, &queries);
    assert_eq!(p.complete(&queries, &metric, reads[0].1, &file[BLOCK_SIZE..]), Err(0));
    // the read still counts as in flight
    assert_eq!(p.advance(&base, &queries), vec![]);
}
