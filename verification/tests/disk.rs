//! Disk index: layout roundtrip, equivalence with the in-memory search, and
//! I/O counting.

use nvvec::brute;
use nvvec::dataset::FloatVectors;
use nvvec::disk::{all_below, DiskIndex, OpenError, SearchError};
use nvvec::distance::l2_sq;
use nvvec::graph::VamanaGraph;
use nvvec::io::{block_count, validate, BlockReader, RequestError, BLOCK_SIZE};
use nvvec::layout::{
    decode_vector, parse_header, parse_neighbors, write_disk_index, DiskIndexMeta, HeaderError, PackError,
};
use nvvec::scorer::ExactScorer;
use nvvec::search::{beam_search, SearchScratch};
use nvvec::vamana::{build, splitmix64, BuildParams};

type Exact = ExactScorer<fn(u32, u32, u32) -> u32, fn(u32, u32) -> u32>;

fn step(acc: u32, x: u32, y: u32) -> u32 {
    let d = f32::from_bits(x) - f32::from_bits(y);
    (f32::from_bits(acc) + d * d).to_bits()
}

fn plus(a: u32, b: u32) -> u32 {
    (f32::from_bits(a) + f32::from_bits(b)).to_bits()
}

fn metric(a: &[u32], b: &[u32]) -> u32 {
    l2_sq(a, b, &step, &plus)
}

fn occludes(alpha: u32, d_ij: u32, d_pj: u32) -> bool {
    let a = f32::from_bits(alpha);
    a * a * f32::from_bits(d_ij) <= f32::from_bits(d_pj)
}

fn random_vectors(n: usize, dim: usize, seed: u64) -> FloatVectors {
    let mut state = seed;
    let data: Vec<u32> = (0..n * dim)
        .map(|_| ((splitmix64(&mut state) >> 40) as f32 / (1u64 << 24) as f32).to_bits())
        .collect();
    FloatVectors::from_raw(dim, data)
}

fn exact(vectors: FloatVectors) -> Exact {
    ExactScorer { vectors, step, plus }
}

fn build_graph(scorer: &Exact, r: usize, l_build: usize) -> VamanaGraph {
    let base = &scorer.vectors;
    let mut sums = vec![0f64; base.dim];
    for row in base.iter() {
        for (s, x) in sums.iter_mut().zip(row) {
            *s += f32::from_bits(*x) as f64;
        }
    }
    let mean: Vec<u32> = sums.iter().map(|s| ((s / base.count as f64) as f32).to_bits()).collect();
    let params = BuildParams { r, l_build, alpha: 1.2f32.to_bits() };
    build(scorer, base, &mean, &occludes, &params)
}

/// Blocks held in memory.
struct MemoryBlocks {
    content: Vec<u8>,
    num_blocks: u64,
}

impl MemoryBlocks {
    fn open(content: Vec<u8>) -> MemoryBlocks {
        let num_blocks = block_count(content.len() as u64).unwrap();
        MemoryBlocks { content, num_blocks }
    }
}

impl BlockReader for MemoryBlocks {
    type Error = RequestError;

    fn num_blocks(&self) -> u64 {
        self.num_blocks
    }

    fn read_block(&self, block_id: u64, buf: &mut [u8]) -> Result<(), RequestError> {
        let at = validate(buf.len(), block_id, self.num_blocks)? as usize;
        buf.copy_from_slice(&self.content[at..at + BLOCK_SIZE]);
        Ok(())
    }
}

#[test]
fn layout_roundtrip_and_search_parity() {
    let (n, dim) = (1500, 24);
    let base = exact(random_vectors(n, dim, 11));
    let graph = build_graph(&base, 16, 40);
    let (meta, bytes) = write_disk_index(&base.vectors, &graph).unwrap();
    assert_eq!(meta.nodes_per_block, (4096 / (24 * 4 + 4 + 16 * 4)) as u32);

    let index = DiskIndex::with_reader(MemoryBlocks::open(bytes)).ok().unwrap();
    assert_eq!(index.meta.n, n as u64);
    assert_eq!(index.meta.medoid, graph.medoid);

    // stored vectors and adjacency must match the sources byte-for-byte
    for node in [0u32, 1, 5, 777, (n - 1) as u32] {
        let (vec_disk, nbs_disk) = index.read_node(node).unwrap();
        assert_eq!(vec_disk.as_slice(), base.vectors.get(node as usize), "vector of {node}");
        assert_eq!(nbs_disk.as_slice(), graph.neighbors_of(node), "neighbors of {node}");
    }

    // w=1 disk search must equal the in-memory search step for step
    let queries = random_vectors(40, dim, 12);
    let (k, ef) = (10, 50);
    let mut mem_scratch = SearchScratch::new(n);
    let mut disk_scratch = SearchScratch::new(n);
    let mut io_bufs = Vec::new();
    for qi in 0..queries.count {
        let q = queries.get(qi);
        let mem_hops = beam_search(
            &base,
            q,
            graph.medoid,
            ef,
            &|id| graph.neighbors_of(id).to_vec(),
            &mut mem_scratch,
        );
        let mem_ids: Vec<(u32, u32)> = mem_scratch.top_k(k);

        let (disk_ids, reads) =
            index.search(&base, &metric, q, k, ef, 1, &mut disk_scratch, &mut io_bufs).ok().unwrap();
        assert_eq!(disk_ids, mem_ids, "query {qi} diverged");
        assert_eq!(reads, mem_hops, "query {qi} read count != hops");
    }

    // wider beams may explore a superset; recall must not collapse
    let exact_results = brute::search(&base, n, &queries, k);
    for w in [2usize, 4, 8] {
        let mut hits = 0;
        for qi in 0..queries.count {
            let (got, _) = index
                .search(&base, &metric, queries.get(qi), k, ef, w, &mut disk_scratch, &mut io_bufs)
                .ok()
                .unwrap();
            let truth: Vec<u32> = exact_results[qi].iter().map(|&(_, id)| id).collect();
            hits += got.iter().filter(|(_, id)| truth.contains(id)).count();
        }
        let recall = hits as f64 / (queries.count * k) as f64;
        assert!(recall >= 0.85, "w={w} recall {recall} too low");
    }
}

#[test]
fn rejects_corrupt_header() {
    let base = exact(random_vectors(200, 8, 21));
    let graph = build_graph(&base, 8, 20);
    let (_, mut bytes) = write_disk_index(&base.vectors, &graph).unwrap();
    bytes[0] ^= 0xFF; // break magic
    assert!(DiskIndex::with_reader(MemoryBlocks::open(bytes)).is_err());
}

/// Three nodes of two dimensions, two slots each.
fn small_index() -> (FloatVectors, VamanaGraph, DiskIndexMeta, Vec<u8>) {
    let base = FloatVectors::from_raw(2, [0.0f32, 0.0, 1.0, 0.0, 5.0, 5.0].iter().map(|x| x.to_bits()).collect());
    let graph = VamanaGraph::from_adjacency(2, 1, vec![vec![1], vec![0, 2], vec![1]]);
    let (meta, bytes) = write_disk_index(&base, &graph).unwrap();
    (base, graph, meta, bytes)
}

#[test]
fn index_bytes_are_laid_out_as_described() {
    let (_, _, meta, bytes) = small_index();
    assert_eq!(bytes.len(), 2 * BLOCK_SIZE);
    assert_eq!((meta.n, meta.dim, meta.r, meta.medoid), (3, 2, 2, 1));
    assert_eq!((meta.node_len, meta.nodes_per_block), (20, 204));
    assert_eq!(meta.data_blocks(), 1);
    assert_eq!(&bytes[..4], b"NVVD");
    assert_eq!(&bytes[4..16], &[1, 0, 0, 0, 3, 0, 0, 0, 0, 0, 0, 0]);
    assert_eq!(
        &bytes[16..36],
        &[2, 0, 0, 0, 2, 0, 0, 0, 1, 0, 0, 0, 20, 0, 0, 0, 204, 0, 0, 0]
    );
    assert!(bytes[36..BLOCK_SIZE].iter().all(|&b| b == 0));
    let node1 = &bytes[BLOCK_SIZE + 20..BLOCK_SIZE + 40];
    assert_eq!(&node1[..8], &[0, 0, 128, 63, 0, 0, 0, 0]);
    assert_eq!(&node1[8..], &[2, 0, 0, 0, 0, 0, 0, 0, 2, 0, 0, 0]);
    // the first node has a free slot
    assert_eq!(&bytes[BLOCK_SIZE + 8..BLOCK_SIZE + 20], &[1, 0, 0, 0, 1, 0, 0, 0, 0, 0, 0, 0]);
    assert!(bytes[BLOCK_SIZE + 60..].iter().all(|&b| b == 0));
    assert_eq!(meta.locate(2), (1, 40));
    assert_eq!(meta.locate(205), (2, 20));
    assert_eq!(decode_vector(node1, 2), vec![1.0f32.to_bits(), 0]);
    assert_eq!(parse_neighbors(node1, 2, 2), vec![0, 2]);
}

#[test]
fn a_degree_beyond_the_slots_is_capped() {
    let node = [0u8, 0, 0, 0, 200, 0, 0, 0, 7, 0, 0, 0, 8, 0, 0, 0];
    assert_eq!(parse_neighbors(&node, 1, 2), vec![7, 8]);
}

#[test]
fn nodes_have_to_fit_a_block() {
    let wide = FloatVectors::from_raw(1023, vec![0; 1023]);
    let alone = VamanaGraph::from_adjacency(1, 0, vec![vec![]]);
    assert_eq!(
        write_disk_index(&wide, &alone).err(),
        Some(PackError::NodeTooLarge { node_len: 4100 })
    );
    let fits = FloatVectors::from_raw(1022, vec![7; 1022]);
    let (meta, bytes) = write_disk_index(&fits, &alone).unwrap();
    assert_eq!((meta.node_len, meta.nodes_per_block, bytes.len()), (4096, 1, 2 * BLOCK_SIZE));
}

#[test]
fn nodes_spread_over_blocks() {
    // 10 nodes of 1004 bytes: 4 per block
    let base = FloatVectors::from_raw(248, (0..2480).collect());
    let graph = VamanaGraph::from_adjacency(2, 0, (0..10u32).map(|i| vec![(i + 1) % 10]).collect());
    let (meta, bytes) = write_disk_index(&base, &graph).unwrap();
    assert_eq!(meta.nodes_per_block, 4);
    assert_eq!(bytes.len(), 4 * BLOCK_SIZE);
    let index = DiskIndex::with_reader(MemoryBlocks::open(bytes)).ok().unwrap();
    for node in 0..10u32 {
        let (vector, list) = index.read_node(node).unwrap();
        assert_eq!(vector, base.get(node as usize));
        assert_eq!(list, vec![(node + 1) % 10]);
    }
    assert!(index.read_node(12).is_err());
}

#[test]
fn headers_are_checked() {
    let (_, _, meta, bytes) = small_index();
    let header = &bytes[..BLOCK_SIZE];
    let ok = parse_header(header, 2).unwrap();
    assert_eq!((ok.n, ok.medoid), (meta.n, meta.medoid));
    let broken = |at: usize, value: u8| {
        let mut h = header.to_vec();
        h[at] = value;
        parse_header(&h, 2).err()
    };
    assert_eq!(broken(1, 0), Some(HeaderError::BadMagic));
    assert_eq!(broken(4, 9), Some(HeaderError::UnsupportedVersion));
    assert_eq!(broken(16, 3), Some(HeaderError::Corrupt));
    assert_eq!(broken(24, 3), Some(HeaderError::Corrupt));
    assert_eq!(broken(28, 21), Some(HeaderError::Corrupt));
    assert_eq!(broken(32, 203), Some(HeaderError::Corrupt));
    assert_eq!(broken(8, 205), Some(HeaderError::Corrupt));
    assert_eq!(parse_header(header, 3).err(), Some(HeaderError::Corrupt));
    // sizes that would wrap around do not slip through
    let mut huge = header.to_vec();
    huge[16..20].copy_from_slice(&0x4000_0002u32.to_le_bytes());
    assert_eq!(parse_header(&huge, 2).err(), Some(HeaderError::Corrupt));
}

#[test]
fn opening_tells_read_errors_from_bad_headers() {
    let (_, _, _, bytes) = small_index();
    assert!(matches!(
        DiskIndex::with_reader(MemoryBlocks::open(Vec::new())).err(),
        Some(OpenError::Read(RequestError::OutOfRange { block_id: 0, num_blocks: 0 }))
    ));
    assert!(matches!(
        DiskIndex::with_reader(MemoryBlocks::open(bytes[..BLOCK_SIZE].to_vec())).err(),
        Some(OpenError::Header(HeaderError::Corrupt))
    ));
}

#[test]
fn a_node_with_a_stray_neighbor_fails_the_search() {
    let (base, _, _, mut bytes) = small_index();
    bytes[BLOCK_SIZE + 20 + 12] = 9;
    let index = DiskIndex::with_reader(MemoryBlocks::open(bytes)).ok().unwrap();
    let scorer = exact(base);
    let q = [0u32, 0];
    let mut scratch = SearchScratch::new(3);
    let r = index.search(&scorer, &metric, &q, 1, 4, 1, &mut scratch, &mut Vec::new());
    assert!(matches!(r.err(), Some(SearchError::CorruptNode { node: 1 })));
    assert!(all_below(&[0, 2, 1], 3) && !all_below(&[0, 3], 3));
}

#[test]
fn a_stray_neighbor_is_followed_where_its_id_is_known() {
    let (_, _, _, mut bytes) = small_index();
    bytes[BLOCK_SIZE + 20 + 12] = 9;
    let index = DiskIndex::with_reader(MemoryBlocks::open(bytes)).ok().unwrap();
    let q = [0u32, 0];
    let run = |points: usize, nodes: usize| {
        let scorer = exact(random_vectors(points, 2, 5));
        let mut scratch = SearchScratch::new(nodes);
        index.search(&scorer, &metric, &q, 3, 8, 1, &mut scratch, &mut Vec::new())
    };
    // node 9 would lie behind the last node of its block, where all is zero
    let (top, reads) = run(20, 20).ok().unwrap();
    assert_eq!(top, vec![(0, 9), (1.0f32.to_bits(), 1), (50.0f32.to_bits(), 2)]);
    assert_eq!(reads, 3);
    assert!(run(10, 10).is_ok());
    assert!(matches!(run(20, 9).err(), Some(SearchError::CorruptNode { node: 1 })));
    assert!(matches!(run(9, 20).err(), Some(SearchError::CorruptNode { node: 1 })));
}

#[test]
fn a_stray_neighbor_beyond_the_last_block_cannot_be_read() {
    let (_, _, _, mut bytes) = small_index();
    bytes[BLOCK_SIZE + 20 + 12] = 250;
    let index = DiskIndex::with_reader(MemoryBlocks::open(bytes)).ok().unwrap();
    assert_eq!(index.meta.locate(250).0, 2);
    let scorer = exact(random_vectors(300, 2, 5));
    let mut scratch = SearchScratch::new(300);
    let r = index.search(&scorer, &metric, &[0, 0], 3, 8, 1, &mut scratch, &mut Vec::new());
    assert!(matches!(r.err(), Some(SearchError::Read(_))));
}

#[test]
fn a_stray_neighbor_is_written_and_read_back() {
    let (base, _, _, _) = small_index();
    let graph = VamanaGraph::from_adjacency(2, 1, vec![vec![1], vec![0, 7], vec![1]]);
    let (meta, bytes) = write_disk_index(&base, &graph).unwrap();
    let index = DiskIndex::with_reader(MemoryBlocks::open(bytes)).ok().unwrap();
    assert_eq!((index.meta.n, index.meta.medoid, index.meta.r), (meta.n, meta.medoid, meta.r));
    let (vector, list) = index.read_node(1).unwrap();
    assert_eq!(vector.as_slice(), base.get(1));
    assert_eq!(list, vec![0, 7]);
}

#[test]
fn returned_distances_come_from_the_blocks() {
    let (base, _, _, bytes) = small_index();
    let index = DiskIndex::with_reader(MemoryBlocks::open(bytes)).ok().unwrap();
    // routing over wrong vectors misdirects, but cannot corrupt a distance
    let wrong = exact(FloatVectors::from_raw(2, vec![0; 6]));
    let q: Vec<u32> = [1.0f32, 0.0].iter().map(|x| x.to_bits()).collect();
    let mut scratch = SearchScratch::new(3);
    let (top, reads) =
        index.search(&wrong, &metric, &q, 3, 8, 2, &mut scratch, &mut Vec::new()).ok().unwrap();
    assert_eq!(reads, 3);
    for (d, id) in &top {
        assert_eq!(*d, metric(&q, base.get(*id as usize)));
    }
    assert_eq!(top.iter().map(|e| e.1).collect::<Vec<u32>>(), vec![1, 0, 2]);
}

#[test]
fn ties_leave_the_distances_equal() {
    // points 1 and 2 are equally far from the query, and 2 is seen first
    let base = exact(FloatVectors::from_raw(1, [5.0f32, 1.0, -1.0].iter().map(|x| x.to_bits()).collect()));
    let graph = VamanaGraph::from_adjacency(2, 0, vec![vec![2, 1], vec![0], vec![0]]);
    let (_, bytes) = write_disk_index(&base.vectors, &graph).unwrap();
    let index = DiskIndex::with_reader(MemoryBlocks::open(bytes)).ok().unwrap();
    let q = [0u32];
    let mut scratch = SearchScratch::new(3);
    let (memory, hops) = graph.search(&base, &q, 2, 4, &mut scratch);
    let (disk, reads) =
        index.search(&base, &metric, &q, 2, 4, 1, &mut scratch, &mut Vec::new()).ok().unwrap();
    assert_eq!(reads, hops);
    let one = 1.0f32.to_bits();
    assert_eq!(memory, vec![(one, 2), (one, 1)]);
    assert_eq!(disk, vec![(one, 1), (one, 2)]);
}

#[test]
fn a_larger_scratch_searches_the_same() {
    let (base, _, _, bytes) = small_index();
    let index = DiskIndex::with_reader(MemoryBlocks::open(bytes)).ok().unwrap();
    let scorer = exact(base);
    let q = [0u32, 0];
    let run = |nodes: usize| {
        let mut scratch = SearchScratch::new(nodes);
        index.search(&scorer, &metric, &q, 2, 4, 2, &mut scratch, &mut Vec::new()).ok().unwrap()
    };
    assert_eq!(run(3), run(40));
}
