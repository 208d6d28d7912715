//! The decisions of the serving layer: tiny dataset -> graph -> disk index ->
//! codebook, then requests.

use nvvec::dataset::FloatVectors;
use nvvec::disk::{DiskIndex, SearchError};
use nvvec::distance::l2_sq;
use nvvec::graph::VamanaGraph;
use nvvec::io::{block_count, validate, BlockReader, RequestError, BLOCK_SIZE};
use nvvec::layout::write_disk_index;
use nvvec::quant::{Sq8Codebook, Sq8Scorer};
use nvvec::scorer::{ExactScorer, RouteScorer, Scorer};
use nvvec::search::SearchScratch;
use nvvec::server::{
    health, load_scorer, plan_search, respond, scorer_fits, serve, Routing, RoutingError, SearchDefaults,
    SearchRequest, ServeError,
};
use nvvec::vamana::{build, splitmix64, BuildParams};

type Exact = ExactScorer<fn(u32, u32, u32) -> u32, fn(u32, u32) -> u32>;

fn step(acc: u32, x: u32, y: u32) -> u32 {
    let d = f32::from_bits(x) - f32::from_bits(y);
    (f32::from_bits(acc) + d * d).to_bits()
}

fn plus(a: u32, b: u32) -> u32 {
    (f32::from_bits(a) + f32::from_bits(b)).to_bits()
}

fn metric(a: &[u32], b: &[u32]) -> u32 {
    l2_sq(a, b, &step, &plus)
}

fn occludes(alpha: u32, d_ij: u32, d_pj: u32) -> bool {
    let a = f32::from_bits(alpha);
    a * a * f32::from_bits(d_ij) <= f32::from_bits(d_pj)
}

fn random_vectors(n: usize, dim: usize, seed: u64) -> FloatVectors {
    let mut state = seed;
    let data: Vec<u32> = (0..n * dim)
        .map(|_| ((splitmix64(&mut state) >> 40) as f32 / (1u64 << 24) as f32).to_bits())
        .collect();
    FloatVectors::from_raw(dim, data)
}

fn exact(vectors: FloatVectors) -> Exact {
    ExactScorer { vectors, step, plus }
}

fn build_graph(scorer: &Exact, r: usize, l_build: usize) -> VamanaGraph {
    let base = &scorer.vectors;
    let mut sums = vec![0f64; base.dim];
    for row in base.iter() {
        for (s, x) in sums.iter_mut().zip(row) {
            *s += f32::from_bits(*x) as f64;
        }
    }
    let mean: Vec<u32> = sums.iter().map(|s| ((s / base.count as f64) as f32).to_bits()).collect();
    let params = BuildParams { r, l_build, alpha: 1.2f32.to_bits() };
    build(scorer, base, &mean, &occludes, &params)
}

/// Blocks held in memory.
struct MemoryBlocks {
    content: Vec<u8>,
    num_blocks: u64,
}

impl MemoryBlocks {
    fn open(content: Vec<u8>) -> MemoryBlocks {
        let num_blocks = block_count(content.len() as u64).unwrap();
        MemoryBlocks { content, num_blocks }
    }
}

impl BlockReader for MemoryBlocks {
    type Error = RequestError;

    fn num_blocks(&self) -> u64 {
        self.num_blocks
    }

    fn read_block(&self, block_id: u64, buf: &mut [u8]) -> Result<(), RequestError> {
        let at = validate(buf.len(), block_id, self.num_blocks)? as usize;
        buf.copy_from_slice(&self.content[at..at + BLOCK_SIZE]);
        Ok(())
    }
}

fn sq8_width(lo: u32, hi: u32) -> u32 {
    ((f32::from_bits(hi) - f32::from_bits(lo)) / 255.0).to_bits()
}

fn sq8_encode(x: u32, lo: u32, s: u32) -> u8 {
    ((f32::from_bits(x) - f32::from_bits(lo)) / f32::from_bits(s)).round().clamp(0.0, 255.0) as u8
}

fn sq8_step(acc: u32, q: u32, lo: u32, s: u32, c: u8) -> u32 {
    let rec = f32::from_bits(lo) + f32::from_bits(s) * c as f32;
    let diff = f32::from_bits(q) - rec;
    (f32::from_bits(acc) + diff * diff).to_bits()
}

type Sq8 = Sq8Scorer<fn(u32, u32, u32, u32, u8) -> u32>;

struct State {
    index: DiskIndex<MemoryBlocks>,
    scorer: Scorer<Exact, Sq8>,
    defaults: SearchDefaults,
}

fn make_state(routing_sq8: bool) -> (State, FloatVectors) {
    let (n, dim) = (800, 12);
    let base = exact(random_vectors(n, dim, 71));
    let graph = build_graph(&base, 12, 30);
    let (_, file) = write_disk_index(&base.vectors, &graph).unwrap();
    let scorer = if routing_sq8 {
        let codebook = Sq8Codebook::train(&base.vectors, &sq8_width, &sq8_encode);
        Scorer::Sq8(Sq8Scorer { codebook, step: sq8_step as fn(u32, u32, u32, u32, u8) -> u32 })
    } else {
        Scorer::Exact(exact(random_vectors(n, dim, 71)))
    };
    let index = DiskIndex::with_reader(MemoryBlocks::open(file)).ok().unwrap();
    assert!(scorer_fits(n, dim, &index.meta));
    (State { index, scorer, defaults: SearchDefaults { k: 5, ef: 40, w: 2 } }, base.vectors)
}

fn request(vector: Vec<u32>, k: Option<usize>) -> SearchRequest {
    SearchRequest { vector, k, ef: None, w: None }
}

#[test]
fn health_reports_shape() {
    let (state, _base) = make_state(true);
    let h = health(&state.index.meta, &state.scorer);
    assert_eq!(h.status, "ok");
    assert_eq!(h.vectors, 800);
    assert_eq!(h.dim, 12);
    assert!(h.routing_memory_bytes > 0);
    assert_eq!(h.routing_memory_bytes, state.scorer.memory_bytes());
}

#[test]
fn search_finds_self_with_exact_distances() {
    for routing_sq8 in [false, true] {
        let (state, base) = make_state(routing_sq8);
        let req = request(base.get(123).to_vec(), Some(3));
        let mut scratch = SearchScratch::new(800);
        let (top, reads) = serve(
            &state.index,
            &state.scorer,
            &metric,
            &state.defaults,
            &req,
            &mut scratch,
            &mut Vec::new(),
        )
        .ok()
        .unwrap();
        let resp = respond(&top, reads, 17);
        assert_eq!(resp.ids[0], 123, "routing_sq8={routing_sq8}");
        assert_eq!(f32::from_bits(resp.distances[0]), 0.0, "self distance must be exactly zero");
        assert!(resp.reads > 0);
        assert_eq!((resp.ids.len(), resp.distances.len(), resp.took_us), (3, 3, 17));
    }
}

#[test]
fn rejects_wrong_dimension() {
    let (state, _base) = make_state(true);
    let req = request(vec![1.0f32.to_bits(), 2.0f32.to_bits()], None);
    let mut scratch = SearchScratch::new(800);
    let r = serve(
        &state.index,
        &state.scorer,
        &metric,
        &state.defaults,
        &req,
        &mut scratch,
        &mut Vec::new(),
    );
    assert!(matches!(r.err(), Some(ServeError::WrongDimension { len: 2 })));
    // nothing was searched
    assert_eq!(scratch.expanded_len(), 0);
}

#[test]
fn a_search_that_fails_fails_the_request() {
    let points: Vec<u32> = [0.0f32, 1.0, 2.0].iter().map(|x| x.to_bits()).collect();
    let base = FloatVectors::from_raw(1, points);
    let defaults = SearchDefaults { k: 1, ef: 4, w: 1 };
    let run = |stray: u32, known: usize| {
        let graph = VamanaGraph::from_adjacency(1, 0, vec![vec![1], vec![stray], vec![0]]);
        let (_, file) = write_disk_index(&base, &graph).unwrap();
        let index = DiskIndex::with_reader(MemoryBlocks::open(file)).ok().unwrap();
        let scorer = exact(random_vectors(known, 1, 9));
        let mut scratch = SearchScratch::new(known);
        let req = request(vec![0], None);
        serve(&index, &scorer, &metric, &defaults, &req, &mut scratch, &mut Vec::new())
    };
    assert!(run(2, 3).is_ok());
    assert!(matches!(run(5, 3).err(), Some(ServeError::Search(SearchError::CorruptNode { node: 1 }))));
    // node 600 would lie in a block that is not there
    assert!(matches!(run(600, 700).err(), Some(ServeError::Search(SearchError::Read(_)))));
}

#[test]
fn plans_are_put_in_bounds() {
    let defaults = SearchDefaults { k: 5, ef: 40, w: 2 };
    let plan = |k: Option<usize>, ef: Option<usize>, w: Option<usize>| {
        let req = SearchRequest { vector: vec![0; 3], k, ef, w };
        let p = plan_search(&req, 3, &defaults).ok().unwrap();
        (p.k, p.ef, p.w)
    };
    assert_eq!(plan(None, None, None), (5, 40, 2));
    assert_eq!(plan(Some(0), None, None), (1, 40, 2));
    assert_eq!(plan(Some(60), None, None), (60, 60, 2));
    assert_eq!(plan(None, Some(3), Some(0)), (5, 5, 1));
    assert_eq!(plan(None, Some(90), Some(1000)), (5, 90, 64));
    let wrong = SearchRequest { vector: vec![0; 2], k: None, ef: None, w: None };
    assert_eq!(plan_search(&wrong, 3, &defaults).err(), Some(2));
}

#[test]
fn shapes_have_to_match() {
    let base = FloatVectors::from_raw(2, vec![0; 6]);
    let graph = VamanaGraph::from_adjacency(2, 0, vec![vec![1], vec![2], vec![0]]);
    let (meta, _) = write_disk_index(&base, &graph).unwrap();
    assert!(scorer_fits(3, 2, &meta));
    assert!(!scorer_fits(4, 2, &meta));
    assert!(!scorer_fits(3, 1, &meta));
}

#[test]
fn routing_needs_its_file() {
    assert_eq!(load_scorer("exact", true, false), Ok(Routing::Exact));
    assert_eq!(load_scorer("exact", false, true), Err(RoutingError::MissingBase));
    assert_eq!(load_scorer("sq8", false, true), Ok(Routing::Sq8));
    assert_eq!(load_scorer("sq8", true, false), Err(RoutingError::MissingCodes));
    assert_eq!(load_scorer("sq", true, true), Err(RoutingError::Unknown));
    assert_eq!(load_scorer("exacT", true, true), Err(RoutingError::Unknown));
}
