//! Index quality on synthetic data: build a graph, search it, and compare
//! against exact brute-force results.

use nvvec::brute;
use nvvec::dataset::FloatVectors;
use nvvec::distance::l2_sq;
use nvvec::graph::{GraphError, VamanaGraph};
use nvvec::scorer::{ExactScorer, RouteScorer};
use nvvec::search::{beam_search, beam_search_batched, SearchScratch};
use nvvec::vamana::{
    build, choose_neighbors, find_medoid, insert_point, link, permutation, robust_prune, splitmix64, BuildParams,
};

type Exact = ExactScorer<fn(u32, u32, u32) -> u32, fn(u32, u32) -> u32>;

fn step(acc: u32, x: u32, y: u32) -> u32 {
    let d = f32::from_bits(x) - f32::from_bits(y);
    (f32::from_bits(acc) + d * d).to_bits()
}

fn plus(a: u32, b: u32) -> u32 {
    (f32::from_bits(a) + f32::from_bits(b)).to_bits()
}

fn occludes(alpha: u32, d_ij: u32, d_pj: u32) -> bool {
    let a = f32::from_bits(alpha);
    a * a * f32::from_bits(d_ij) <= f32::from_bits(d_pj)
}

fn bits(v: &[f32]) -> Vec<u32> {
    v.iter().map(|x| x.to_bits()).collect()
}

fn random_data(n: usize, dim: usize, seed: u64) -> Vec<u32> {
    let mut state = seed;
    (0..n * dim)
        .map(|_| ((splitmix64(&mut state) >> 40) as f32 / (1u64 << 24) as f32).to_bits())
        .collect()
}

fn random_vectors(n: usize, dim: usize, seed: u64) -> FloatVectors {
    FloatVectors::from_raw(dim, random_data(n, dim, seed))
}

fn exact(vectors: FloatVectors) -> Exact {
    ExactScorer { vectors, step, plus }
}

fn mean_of(base: &FloatVectors) -> Vec<u32> {
    let mut sums = vec![0f64; base.dim];
    for row in base.iter() {
        for (s, x) in sums.iter_mut().zip(row) {
            *s += f32::from_bits(*x) as f64;
        }
    }
    sums.iter().map(|s| ((s / base.count as f64) as f32).to_bits()).collect()
}

fn build_graph(scorer: &Exact, r: usize, l_build: usize) -> VamanaGraph {
    let mean = mean_of(&scorer.vectors);
    let params = BuildParams { r, l_build, alpha: 1.2f32.to_bits() };
    build(scorer, &scorer.vectors, &mean, &occludes, &params)
}

fn search_ids(
    graph: &VamanaGraph,
    scorer: &Exact,
    query: &[u32],
    k: usize,
    ef: usize,
    scratch: &mut SearchScratch,
) -> Vec<u32> {
    beam_search(scorer, query, graph.medoid, ef, &|id| graph.neighbors_of(id).to_vec(), scratch);
    scratch.top_k(k).into_iter().map(|(_, id)| id).collect()
}

#[test]
fn robust_prune_drops_occluded() {
    // Points on a line at 0, 1, 2, 3. From p=0, candidate 1 occludes
    // both 2 and 3 (they are closer to 1 than to 0 by margin > alpha).
    let scorer = exact(FloatVectors::from_raw(1, bits(&[0.0, 1.0, 2.0, 3.0])));
    let cand: Vec<(u32, u32)> =
        [(1.0f32, 1), (4.0, 2), (9.0, 3)].iter().map(|&(d, id)| (d.to_bits(), id)).collect();
    let kept = robust_prune(&scorer, &scorer.vectors, &occludes, 0, &cand, 1.1f32.to_bits(), 4);
    assert_eq!(kept, vec![1]);
}

#[test]
fn robust_prune_respects_r_and_dedups() {
    let scorer = exact(FloatVectors::from_raw(1, bits(&[0.0, 1.0, -1.0, 2.0])));
    // duplicate entries and p itself must be ignored
    let cand: Vec<(u32, u32)> = [(1.0f32, 1), (1.0, 1), (0.0, 0), (1.0, 2), (4.0, 3)]
        .iter()
        .map(|&(d, id)| (d.to_bits(), id))
        .collect();
    let kept = robust_prune(&scorer, &scorer.vectors, &occludes, 0, &cand, 1.0f32.to_bits(), 2);
    assert!(kept.len() <= 2);
    assert!(!kept.contains(&0));
    assert_eq!(kept, vec![1, 2]);
}

#[test]
fn pruning_drops_only_for_a_reason() {
    let scorer = exact(random_vectors(60, 4, 5));
    let base = &scorer.vectors;
    let cand: Vec<(u32, u32)> = (1..60).map(|j| (scorer.score(base.get(0), j), j)).collect();
    let alpha = 1.2f32.to_bits();
    for r in [1usize, 3, 60] {
        let out = robust_prune(&scorer, base, &occludes, 0, &cand, alpha, r);
        assert!(out.len() <= r);
        for &(d, j) in &cand {
            let hidden = out.iter().any(|&m| occludes(alpha, scorer.score(base.get(m as usize), j), d));
            assert!(out.contains(&j) || out.len() == r || hidden);
        }
    }
}

#[test]
fn permutation_is_deterministic_and_complete() {
    let a = permutation(1000, 7);
    let b = permutation(1000, 7);
    assert_eq!(a, b);
    let mut sorted = a.clone();
    sorted.sort_unstable();
    assert_eq!(sorted, (0..1000).collect::<Vec<u32>>());
}

#[test]
fn permutations_of_few_points() {
    assert_eq!(permutation(0, 1), Vec::<u32>::new());
    assert_eq!(permutation(1, 1), vec![0]);
    let mut two = permutation(2, 42);
    two.sort_unstable();
    assert_eq!(two, vec![0, 1]);
}

#[test]
fn generator_gives_known_numbers() {
    // first outputs of splitmix64 for the seed 0
    let mut state = 0u64;
    assert_eq!(splitmix64(&mut state), 0xE220_A839_7B1D_CDAF);
    assert_eq!(state, 0x9E37_79B9_7F4A_7C15);
    assert_eq!(splitmix64(&mut state), 0x6E78_9E6A_A1B9_65F4);
}

#[test]
fn build_defaults() {
    let p = BuildParams::default();
    assert_eq!((p.r, p.l_build, f32::from_bits(p.alpha)), (32, 100, 1.2));
}

#[test]
fn medoid_is_the_first_closest_to_the_mean() {
    let scorer = exact(FloatVectors::from_raw(1, bits(&[9.0, 4.0, 6.0, 4.0])));
    assert_eq!(find_medoid(&scorer, &bits(&[5.0]), 4), 1);
    assert_eq!(find_medoid(&scorer, &bits(&[8.0]), 4), 0);
}

#[test]
fn links_back_while_there_is_room() {
    let scorer = exact(FloatVectors::from_raw(1, bits(&[0.0, 1.0, -2.0, 5.0])));
    let base = &scorer.vectors;
    let alpha = 1.0f32.to_bits();
    assert_eq!(link(&scorer, base, &occludes, 0, &[1, 2], 1, alpha, 3), vec![1, 2]);
    assert_eq!(link(&scorer, base, &occludes, 0, &[1, 2], 3, alpha, 3), vec![1, 2, 3]);
    // full: 3 lies behind 1
    assert_eq!(link(&scorer, base, &occludes, 0, &[1, 2], 3, alpha, 2), vec![1, 2]);
    assert_eq!(link(&scorer, base, &occludes, 0, &[3, 2], 1, alpha, 2), vec![1, 2]);
}

#[test]
fn candidates_are_what_was_expanded_and_what_was_there() {
    let scorer = exact(FloatVectors::from_raw(1, bits(&[0.0, 1.0, -2.0, 5.0])));
    let base = &scorer.vectors;
    let expanded = vec![(25.0f32.to_bits(), 3)];
    let out = choose_neighbors(&scorer, base, &occludes, 0, &expanded, &[2, 1], 1.0f32.to_bits(), 8);
    assert_eq!(out, vec![1, 2]);
}

#[test]
fn inserting_links_both_ways() {
    let scorer = exact(FloatVectors::from_raw(1, bits(&[0.0, 10.0, 1.0])));
    let params = BuildParams { r: 4, l_build: 4, alpha: 1.0f32.to_bits() };
    let mut adj = vec![vec![1], vec![0], vec![]];
    let mut scratch = SearchScratch::new(3);
    insert_point(&scorer, &scorer.vectors, &occludes, &mut adj, 0, 2, 1.0f32.to_bits(), &params, &mut scratch);
    // from 2 at 1.0: 0 is at distance 1, 1 at 81; 0 does not hide 1 (100 > 81)
    assert_eq!(adj, vec![vec![1, 2], vec![0, 2], vec![0, 1]]);
}

#[test]
fn recall_beats_090_on_random_data() {
    let (n, dim, k) = (2000, 16, 10);
    let scorer = exact(random_vectors(n, dim, 1));
    let queries = random_vectors(100, dim, 2);
    let graph = build_graph(&scorer, 16, 40);

    // structural invariants
    assert_eq!(graph.num_nodes(), n);
    let (sum, nodes) = graph.avg_degree();
    assert!(sum as f64 / nodes as f64 > 4.0, "suspiciously sparse: {}", sum as f64 / nodes as f64);
    for id in 0..n as u32 {
        let nbs = graph.neighbors_of(id);
        assert!(nbs.len() <= 16);
        assert!(!nbs.contains(&id), "self-loop at {id}");
    }
    assert!(graph.is_navigable());

    let exact_results = brute::search(&scorer, n, &queries, k);
    let mut scratch = SearchScratch::new(n);
    let mut hits = 0;
    for (qi, exact_res) in exact_results.iter().enumerate() {
        let got = search_ids(&graph, &scorer, queries.get(qi), k, 64, &mut scratch);
        let truth: Vec<u32> = exact_res.iter().map(|&(_, id)| id).collect();
        hits += got.iter().filter(|id| truth.contains(id)).count();
    }
    let recall = hits as f64 / (exact_results.len() * k) as f64;
    assert!(recall >= 0.9, "recall {recall} < 0.9");
}

#[test]
fn self_search_returns_self() {
    let scorer = exact(random_vectors(500, 8, 3));
    let graph = build_graph(&scorer, 12, 30);
    let mut scratch = SearchScratch::new(500);
    let mut ok = 0;
    for qi in (0..500).step_by(10) {
        let got = search_ids(&graph, &scorer, scorer.vectors.get(qi), 1, 30, &mut scratch);
        ok += (got == vec![qi as u32]) as usize;
    }
    // every point should find itself (dist 0) essentially always
    assert!(ok >= 48, "only {ok}/50 self-searches succeeded");
}

#[test]
fn save_load_roundtrip() {
    let scorer = exact(random_vectors(300, 8, 4));
    let graph = build_graph(&scorer, 8, 20);
    let bytes = graph.save();
    let loaded = VamanaGraph::load(&bytes).unwrap();
    assert_eq!(loaded.num_nodes(), graph.num_nodes());
    assert_eq!(loaded.medoid, graph.medoid);
    assert_eq!(loaded.r(), graph.r());
    for id in [0u32, 7, 123, 299] {
        assert_eq!(loaded.neighbors_of(id), graph.neighbors_of(id));
    }
}

#[test]
fn graph_file_layout_and_its_errors() {
    let graph = VamanaGraph::from_adjacency(2, 1, vec![vec![1], vec![0, 2], vec![]]);
    let bytes = graph.save();
    assert_eq!(&bytes[..4], b"NVVG");
    assert_eq!(&bytes[4..24], &[1, 0, 0, 0, 3, 0, 0, 0, 0, 0, 0, 0, 2, 0, 0, 0, 1, 0, 0, 0]);
    assert_eq!(&bytes[24..27], &[1, 2, 0]);
    assert_eq!(bytes.len(), 24 + 3 + 3 * 2 * 4);
    // free slots are zero
    assert_eq!(&bytes[31..35], &[0, 0, 0, 0]);

    let mut longer = bytes.clone();
    longer.push(9);
    assert_eq!(VamanaGraph::load(&longer).unwrap().neighbors_of(1), &[0, 2]);

    let load_err = |b: &[u8]| VamanaGraph::load(b).err();
    assert_eq!(load_err(&bytes[..23]), Some(GraphError::UnexpectedEof));
    assert_eq!(load_err(&bytes[..bytes.len() - 1]), Some(GraphError::UnexpectedEof));
    let broken = |at: usize, value: u8| {
        let mut b = bytes.clone();
        b[at] = value;
        VamanaGraph::load(&b).err()
    };
    assert_eq!(broken(0, 0), Some(GraphError::NotAGraphFile));
    assert_eq!(broken(4, 2), Some(GraphError::UnsupportedVersion));
    assert_eq!(broken(16, 0), Some(GraphError::CorruptHeader));
    assert_eq!(broken(17, 1), Some(GraphError::CorruptHeader));
    assert_eq!(broken(20, 3), Some(GraphError::CorruptHeader));
    assert_eq!(broken(15, 0xff), Some(GraphError::UnexpectedEof));
    assert_eq!(broken(24, 3), Some(GraphError::CorruptDegrees));
    assert_eq!(broken(26, 0xff), Some(GraphError::CorruptDegrees));
    assert_eq!(broken(26, 2), None);
    assert_eq!(graph.avg_degree(), (3, 3));
}

#[test]
fn graphs_that_lead_astray_are_noticed() {
    let good = VamanaGraph::from_adjacency(2, 0, vec![vec![1], vec![0]]);
    assert!(good.is_navigable());
    let mut far = VamanaGraph::load(&good.save()).unwrap();
    far.neighbors[0] = 2;
    assert!(!far.is_navigable());
    let mut wide = VamanaGraph::load(&good.save()).unwrap();
    wide.degrees[1] = 3;
    assert!(!wide.is_navigable());
    let mut lost = VamanaGraph::load(&good.save()).unwrap();
    lost.medoid = 2;
    assert!(!lost.is_navigable());
}

#[test]
fn search_walks_the_graph_and_counts_hops() {
    // a path 0 - 1 - 2 - 3 with a far end
    let scorer = exact(FloatVectors::from_raw(1, bits(&[0.0, 1.0, 2.0, 3.0, 100.0])));
    let graph = VamanaGraph::from_adjacency(
        2,
        0,
        vec![vec![1, 4], vec![0, 2], vec![1, 3], vec![2], vec![0]],
    );
    let mut scratch = SearchScratch::new(5);
    let q = bits(&[3.0]);
    let (top, hops) = graph.search(&scorer, &q, 2, 2, &mut scratch);
    let found: Vec<(f32, u32)> = top.iter().map(|&(d, id)| (f32::from_bits(d), id)).collect();
    assert_eq!(found, vec![(0.0, 3), (1.0, 2)]);
    assert_eq!(hops, 4);
    assert_eq!(scratch.expanded.iter().map(|&(_, id)| id).collect::<Vec<u32>>(), vec![0, 1, 2, 3]);
    // the scratch forgets between searches
    let again = graph.search(&scorer, &q, 2, 2, &mut scratch);
    assert_eq!(again, (top, hops));
    // the pool is too small for a wider round to go astray
    let wide = beam_search_batched(&scorer, &q, 0, 2, 4, &|id| graph.neighbors_of(id).to_vec(), &mut scratch);
    assert_eq!(wide, 4);
    assert_eq!(scratch.top_k(1)[0].1, 3);
    assert_eq!(scratch.top_k(9).len(), 2);
}

#[test]
fn distances_are_symmetric_enough_for_reranking() {
    let scorer = exact(random_vectors(10, 19, 8));
    let base = &scorer.vectors;
    for i in 0..10u32 {
        for j in 0..10u32 {
            let d = scorer.score(base.get(i as usize), j);
            assert_eq!(d, l2_sq(base.get(i as usize), base.get(j as usize), &step, &plus));
        }
    }
}

#[test]
fn a_scratch_may_be_larger_than_the_base() {
    let scorer = exact(FloatVectors::from_raw(1, bits(&[0.0, 1.0, 2.0])));
    let graph = VamanaGraph::from_adjacency(2, 0, vec![vec![1], vec![0, 2], vec![1]]);
    let q = bits(&[2.0]);
    let mut scratch = SearchScratch::new(50);
    let (top, hops) = graph.search(&scorer, &q, 1, 3, &mut scratch);
    assert_eq!((top[0].1, hops), (2, 3));
    let hops = beam_search(&scorer, &q, 0, 3, &|id| graph.neighbors_of(id).to_vec(), &mut scratch);
    assert_eq!(hops, 3);
    // the entry point is expanded first
    let ids: Vec<u32> = scratch.expanded_pairs().into_iter().map(|e| e.1).collect();
    assert_eq!(ids, vec![0, 1, 2]);
}

#[test]
fn a_roomy_pool_reaches_everything() {
    // a ring of five points, and a sixth that no edge leads to
    let scorer = exact(FloatVectors::from_raw(1, bits(&[4.0, 1.0, 9.0, 0.5, 7.0, 1.5])));
    let graph = VamanaGraph::from_adjacency(1, 2, vec![vec![1], vec![2], vec![3], vec![4], vec![0], vec![0]]);
    let q = bits(&[1.5]);
    for w in [1, 3] {
        let mut scratch = SearchScratch::new(6);
        let hops = beam_search_batched(&scorer, &q, 2, 5, w, &|id| graph.neighbors_of(id).to_vec(), &mut scratch);
        assert_eq!(hops, 5);
        let mut expanded: Vec<u32> = scratch.expanded_pairs().into_iter().map(|e| e.1).collect();
        expanded.sort();
        assert_eq!(expanded, vec![0, 1, 2, 3, 4]);
        let ids: Vec<u32> = scratch.top_k(5).into_iter().map(|e| e.1).collect();
        assert_eq!(ids, vec![1, 3, 0, 4, 2]);
    }
}

#[test]
fn a_roomy_search_is_as_close_as_a_scan() {
    let (n, dim, k) = (200, 6, 12);
    let scorer = exact(random_vectors(n, dim, 61));
    // every point leads to the next, and to one further on
    let adj = (0..n as u32).map(|i| vec![(i + 1) % 200, (i * 7 + 3) % 200]).collect();
    let graph = VamanaGraph::from_adjacency(2, 5, adj);
    let mut scratch = SearchScratch::new(n);
    let queries = random_vectors(10, dim, 62);
    for q in queries.iter() {
        let (top, hops) = graph.search(&scorer, q, k, n, &mut scratch);
        assert_eq!(hops, n);
        let best = brute::search_one(&scorer, n, q, k);
        assert_eq!(top.len(), k);
        let found: Vec<u32> = top.iter().map(|e| e.0).collect();
        assert_eq!(found, best.iter().map(|e| e.0).collect::<Vec<u32>>());
    }
}
