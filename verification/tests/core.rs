//! Datasets, distances, top-k selection, exact search and evaluation.

use nvvec::bits::{less, less_eq, total_rank, total_rank_double};
use nvvec::brute;
use nvvec::dataset::{
    load_texmex, parse_records, read_fvecs, read_ivecs, record_layout, DatasetError, FloatVectors, VecsError,
};
use nvvec::distance::l2_sq;
use nvvec::eval::{latency_stats, recall_at_k};
use nvvec::scorer::{ExactScorer, RouteScorer};
use nvvec::topk::TopK;

fn bits(v: &[f32]) -> Vec<u32> {
    v.iter().map(|x| x.to_bits()).collect()
}

fn floats(v: &[u32]) -> Vec<f32> {
    v.iter().map(|x| f32::from_bits(*x)).collect()
}

fn step(acc: u32, x: u32, y: u32) -> u32 {
    let d = f32::from_bits(x) - f32::from_bits(y);
    (f32::from_bits(acc) + d * d).to_bits()
}

fn plus(a: u32, b: u32) -> u32 {
    (f32::from_bits(a) + f32::from_bits(b)).to_bits()
}

fn l2(a: &[f32], b: &[f32]) -> f32 {
    f32::from_bits(l2_sq(&bits(a), &bits(b), &step, &plus))
}

fn fvecs_bytes(vectors: &[&[f32]]) -> Vec<u8> {
    let mut out = Vec::new();
    for v in vectors {
        out.extend((v.len() as u32).to_le_bytes());
        for x in *v {
            out.extend(x.to_le_bytes());
        }
    }
    out
}

fn ivecs_bytes(lists: &[&[u32]]) -> Vec<u8> {
    let mut out = Vec::new();
    for v in lists {
        out.extend((v.len() as u32).to_le_bytes());
        for x in *v {
            out.extend(x.to_le_bytes());
        }
    }
    out
}

#[test]
fn finds_exact_neighbors() {
    // 4 points on a line; query at 0.9 -> nearest are 1.0, 0.0
    let base = FloatVectors::from_raw(1, bits(&[0.0, 1.0, 2.0, 3.0]));
    let queries = FloatVectors::from_raw(1, bits(&[0.9]));
    let n = base.count;
    let scorer = ExactScorer { vectors: base, step, plus };
    let results = brute::search(&scorer, n, &queries, 2);
    let ids: Vec<u32> = results[0].iter().map(|&(_, id)| id).collect();
    assert_eq!(ids, vec![1, 0]);
}

#[test]
fn scan_prefers_the_first_of_equal_points() {
    let base = FloatVectors::from_raw(1, bits(&[5.0, 2.0, 2.0, 2.0, 7.0]));
    let n = base.count;
    let scorer = ExactScorer { vectors: base, step, plus };
    let top = brute::search_one(&scorer, n, &bits(&[2.0]), 2);
    assert_eq!(top, vec![(0.0f32.to_bits(), 1), (0.0f32.to_bits(), 2)]);
    let all = brute::search_one(&scorer, n, &bits(&[2.0]), 9);
    assert_eq!(all.len(), 5);
    assert_eq!(all[4], (25.0f32.to_bits(), 4));
}

#[test]
fn parses_fvecs() {
    let v = read_fvecs(&fvecs_bytes(&[&[1.0, 2.0, 3.0], &[4.0, 5.0, 6.0]])).unwrap();
    assert_eq!((v.dim, v.count), (3, 2));
    assert_eq!(floats(v.get(1)), &[4.0, 5.0, 6.0]);
}

#[test]
fn rejects_truncated_file() {
    let mut bytes = fvecs_bytes(&[&[1.0, 2.0, 3.0]]);
    bytes.pop();
    assert!(read_fvecs(&bytes).is_err());
}

#[test]
fn names_what_is_wrong_with_a_vector_file() {
    assert_eq!(record_layout(&[1, 2, 3]), Err(VecsError::TooSmall));
    assert_eq!(
        read_fvecs(&[0, 0, 0, 0]).err(),
        Some(VecsError::ImplausibleDimension { dim: 0 })
    );
    assert_eq!(
        read_fvecs(&65_537u32.to_le_bytes()).err(),
        Some(VecsError::ImplausibleDimension { dim: 65_537 })
    );
    let mut short = fvecs_bytes(&[&[1.0, 2.0]]);
    short.pop();
    assert_eq!(
        read_fvecs(&short).err(),
        Some(VecsError::SizeMismatch { size: 11, record: 12 })
    );
    let mut odd = ivecs_bytes(&[&[1, 2], &[3, 4]]);
    odd[12] = 9;
    assert_eq!(
        read_ivecs(&odd).err(),
        Some(VecsError::RecordDimension { record: 1, dim: 9, expected: 2 })
    );
    // a dimension of 65536 is still plausible, its size is not
    assert_eq!(
        read_fvecs(&65_536u32.to_le_bytes()).err(),
        Some(VecsError::SizeMismatch { size: 4, record: 262_148 })
    );
}

#[test]
fn rows_come_back_as_written() {
    let bytes = ivecs_bytes(&[&[7, 8, 9], &[1, 0, u32::MAX]]);
    let lists = read_ivecs(&bytes).unwrap();
    assert_eq!((lists.dim, lists.count), (3, 2));
    assert_eq!(lists.get(0), &[7, 8, 9]);
    assert_eq!(lists.get(1), &[1, 0, u32::MAX]);
    assert_eq!(parse_records(&bytes).unwrap(), (3, 2, vec![7, 8, 9, 1, 0, u32::MAX]));
}

#[test]
fn head_and_iter_follow_the_rows() {
    let v = FloatVectors::from_raw(2, vec![1, 2, 3, 4, 5, 6]);
    assert_eq!(v.count, 3);
    let rows = v.iter();
    assert_eq!(rows, vec![&[1, 2][..], &[3, 4][..], &[5, 6][..]]);
    let h = v.head(2);
    assert_eq!((h.dim, h.count), (2, 2));
    assert_eq!(h.get(1), &[3, 4]);
    assert_eq!(v.head(99).count, 3);
    assert_eq!(v.head(0).count, 0);
}

#[test]
fn dataset_parts_have_to_fit() {
    let base = || FloatVectors::from_raw(2, vec![1, 2, 3, 4]);
    let gt = || read_ivecs(&ivecs_bytes(&[&[0]])).unwrap();
    let ok = load_texmex(base(), FloatVectors::from_raw(2, vec![9, 9]), gt()).unwrap();
    assert_eq!((ok.base.count, ok.queries.count, ok.ground_truth.count), (2, 1, 1));
    assert_eq!(
        load_texmex(base(), FloatVectors::from_raw(1, vec![9]), gt()).err(),
        Some(DatasetError::DimensionMismatch { base: 2, queries: 1 })
    );
    assert_eq!(
        load_texmex(base(), FloatVectors::from_raw(2, vec![9, 9, 9, 9]), gt()).err(),
        Some(DatasetError::CountMismatch { ground_truth: 1, queries: 2 })
    );
}

#[test]
fn known_value() {
    assert_eq!(l2(&[0.0, 0.0], &[3.0, 4.0]), 25.0);
}

#[test]
fn handles_non_multiple_of_lane_width() {
    // dim 11 exercises both the lanes and the tail
    let a: Vec<f32> = (0..11).map(|i| i as f32).collect();
    let b: Vec<f32> = (0..11).map(|i| (i + 1) as f32).collect();
    assert_eq!(l2(&a, &b), 11.0);
}

#[test]
fn zero_for_identical() {
    let a: Vec<f32> = (0..128).map(|i| i as f32 * 0.5).collect();
    assert_eq!(l2(&a, &a), 0.0);
}

#[test]
fn distances_are_symmetric_and_not_negative() {
    let a: Vec<f32> = (0..19).map(|i| (i * i) as f32 * 0.37 - 20.0).collect();
    let b: Vec<f32> = (0..19).map(|i| 11.0 - i as f32 * 1.3).collect();
    assert_eq!(l2(&a, &b).to_bits(), l2(&b, &a).to_bits());
    assert!(l2(&a, &b) > 0.0);
    // even where squares overflow
    let huge = vec![f32::MAX; 9];
    let low = vec![f32::MIN; 9];
    assert_eq!(l2(&huge, &low), f32::INFINITY);
}

#[test]
fn lanes_are_added_up_before_the_tail() {
    // 1e8 in lane 0 swallows the small tail only if the tail comes last
    let mut a = vec![0.0f32; 9];
    a[0] = 10_000.0;
    a[8] = 1.0;
    let b = vec![0.0f32; 9];
    assert_eq!(l2(&a, &b), 1e8 + 1.0);
    let mut lanes = [0.0f32; 8];
    lanes[0] = 1e8;
    let expected: f32 = lanes.iter().fold(0.0, |s, x| s + x) + 1.0;
    assert_eq!(l2(&a, &b), expected);
}

#[test]
fn exact_scorer_scores_rows_and_counts_memory() {
    let base = FloatVectors::from_raw(2, bits(&[0.0, 0.0, 3.0, 4.0]));
    let scorer = ExactScorer { vectors: base, step, plus };
    assert_eq!(f32::from_bits(scorer.score(&bits(&[0.0, 0.0]), 1)), 25.0);
    assert_eq!(scorer.memory_bytes(), 16);
    assert_eq!(scorer.num_points(), 2);
}

#[test]
fn percentiles() {
    let samples: Vec<u64> = (1..=100).map(|x| f64::from(x).to_bits()).collect();
    let mean = |s: &[u64]| {
        let sum: f64 = s.iter().map(|x| f64::from_bits(*x)).sum();
        (sum / s.len() as f64).to_bits()
    };
    let stats = latency_stats(samples, &mean);
    assert_eq!(f64::from_bits(stats.p50_us), 50.0);
    assert_eq!(f64::from_bits(stats.p99_us), 99.0);
    assert_eq!(f64::from_bits(stats.mean_us), 50.5);
}

#[test]
fn percentiles_of_few_and_unsorted_samples() {
    let first = |s: &[u64]| s[0];
    let one = latency_stats(vec![7.0f64.to_bits()], &first);
    assert_eq!(f64::from_bits(one.p50_us), 7.0);
    assert_eq!(f64::from_bits(one.p90_us), 7.0);
    assert_eq!(f64::from_bits(one.p99_us), 7.0);
    let mixed: Vec<u64> = [3.0f64, -1.0, 2.0, f64::INFINITY].iter().map(|x| x.to_bits()).collect();
    let stats = latency_stats(mixed, &first);
    assert_eq!(f64::from_bits(stats.mean_us), -1.0);
    assert_eq!(f64::from_bits(stats.p50_us), 2.0);
    assert_eq!(f64::from_bits(stats.p90_us), f64::INFINITY);
}

#[test]
fn percentiles_are_nearest_rank_in_any_order() {
    let sum = |s: &[u64]| s.iter().map(|x| f64::from_bits(*x)).sum::<f64>().to_bits();
    let stats = |v: &[f64]| {
        let s = latency_stats(v.iter().map(|x| x.to_bits()).collect(), &sum);
        [s.mean_us, s.p50_us, s.p90_us, s.p99_us].map(f64::from_bits)
    };
    // half of five samples are three of them, 90 percent all five
    assert_eq!(stats(&[15.0, 20.0, 35.0, 40.0, 50.0]), [160.0, 35.0, 50.0, 50.0]);
    assert_eq!(stats(&[50.0, 35.0, 15.0, 40.0, 20.0]), [160.0, 35.0, 50.0, 50.0]);
    // 90 percent of ten samples are nine of them
    let ten: Vec<f64> = (1..=10).map(|i| (i * i) as f64).collect();
    assert_eq!(stats(&ten), [385.0, 25.0, 81.0, 100.0]);
    let back: Vec<f64> = ten.iter().rev().copied().collect();
    assert_eq!(stats(&back), stats(&ten));
}

#[test]
fn recall_counts_hits_among_the_top() {
    let gt = read_ivecs(&ivecs_bytes(&[&[1, 2, 3], &[4, 5, 6], &[7, 8, 9]])).unwrap();
    // first query: 2 of 2; second: 1 of 2, and one result is too few
    let results = vec![vec![2, 1, 3], vec![5]];
    assert_eq!(recall_at_k(&results, &gt, 2), (3, 4));
    // 6 is a true neighbor, but not among the top 2
    assert_eq!(recall_at_k(&vec![vec![1, 2], vec![6, 4]], &gt, 2), (3, 4));
    assert_eq!(recall_at_k(&vec![vec![3, 1, 2]], &gt, 3), (3, 3));
    // an id that is returned twice is one hit
    assert_eq!(recall_at_k(&vec![vec![1, 1]], &gt, 2), (1, 2));
    assert_eq!(recall_at_k(&vec![vec![2, 9, 2], vec![4, 4, 4]], &gt, 3), (2, 6));
}

#[test]
fn keeps_k_smallest_in_order() {
    let mut topk = TopK::new(3);
    for (i, d) in [5.0f32, 1.0, 4.0, 2.0, 3.0, 0.5].into_iter().enumerate() {
        topk.push(d.to_bits(), i as u32);
    }
    let result: Vec<(f32, u32)> =
        topk.into_sorted().into_iter().map(|(d, id)| (f32::from_bits(d), id)).collect();
    assert_eq!(result, vec![(0.5, 5), (1.0, 1), (2.0, 3)]);
}

#[test]
fn threshold_tracks_worst_kept() {
    let mut topk = TopK::new(2);
    assert_eq!(f32::from_bits(topk.threshold()), f32::INFINITY);
    topk.push(3.0f32.to_bits(), 0);
    topk.push(1.0f32.to_bits(), 1);
    assert_eq!(f32::from_bits(topk.threshold()), 3.0);
    topk.push(2.0f32.to_bits(), 2);
    assert_eq!(f32::from_bits(topk.threshold()), 2.0);
}

#[test]
fn full_accumulator_ignores_ties_and_nan() {
    let mut topk = TopK::new(2);
    topk.push(1.0f32.to_bits(), 9);
    topk.push(1.0f32.to_bits(), 4);
    topk.push(1.0f32.to_bits(), 1);
    topk.push(f32::NAN.to_bits(), 0);
    let ids: Vec<u32> = topk.into_sorted().into_iter().map(|(_, id)| id).collect();
    assert_eq!(ids, vec![4, 9]);
}

#[test]
fn patterns_compare_like_floats() {
    let values = [
        -f32::NAN,
        f32::NEG_INFINITY,
        -2.5,
        -f32::MIN_POSITIVE,
        -0.0,
        0.0,
        1e-42,
        1.0,
        f32::INFINITY,
        f32::NAN,
    ];
    for a in values {
        for b in values {
            assert_eq!(less(a.to_bits(), b.to_bits()), a < b);
            assert_eq!(less_eq(a.to_bits(), b.to_bits()), a <= b);
            assert_eq!(
                total_rank(a.to_bits()).cmp(&total_rank(b.to_bits())),
                a.total_cmp(&b)
            );
            let (x, y) = (a as f64, b as f64);
            assert_eq!(
                total_rank_double(x.to_bits()).cmp(&total_rank_double(y.to_bits())),
                x.total_cmp(&y)
            );
        }
    }
}
