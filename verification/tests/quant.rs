//! Scalar quantization.

use nvvec::dataset::FloatVectors;
use nvvec::distance::l2_sq;
use nvvec::quant::{CodebookError, Sq8Codebook, Sq8Scorer};
use nvvec::scorer::{ExactScorer, RouteScorer, Scorer};
use nvvec::vamana::splitmix64;

fn step(acc: u32, x: u32, y: u32) -> u32 {
    let d = f32::from_bits(x) - f32::from_bits(y);
    (f32::from_bits(acc) + d * d).to_bits()
}

fn plus(a: u32, b: u32) -> u32 {
    (f32::from_bits(a) + f32::from_bits(b)).to_bits()
}

fn l2(a: &[u32], b: &[u32]) -> f32 {
    f32::from_bits(l2_sq(a, b, &step, &plus))
}

fn sq8_width(lo: u32, hi: u32) -> u32 {
    ((f32::from_bits(hi) - f32::from_bits(lo)) / 255.0).to_bits()
}

fn sq8_encode(x: u32, lo: u32, s: u32) -> u8 {
    ((f32::from_bits(x) - f32::from_bits(lo)) / f32::from_bits(s)).round().clamp(0.0, 255.0) as u8
}

fn sq8_step(acc: u32, q: u32, lo: u32, s: u32, c: u8) -> u32 {
    let rec = f32::from_bits(lo) + f32::from_bits(s) * c as f32;
    let diff = f32::from_bits(q) - rec;
    (f32::from_bits(acc) + diff * diff).to_bits()
}

fn bits(v: &[f32]) -> Vec<u32> {
    v.iter().map(|x| x.to_bits()).collect()
}

fn random_vectors(n: usize, dim: usize, seed: u64) -> FloatVectors {
    let mut state = seed;
    let data: Vec<u32> = (0..n * dim)
        .map(|_| ((splitmix64(&mut state) >> 40) as f32 / (1u64 << 24) as f32).to_bits())
        .collect();
    FloatVectors::from_raw(dim, data)
}

fn train(base: &FloatVectors) -> Sq8Codebook {
    Sq8Codebook::train(base, &sq8_width, &sq8_encode)
}

fn dist(cb: &Sq8Codebook, q: &[u32], id: u32) -> f32 {
    f32::from_bits(cb.dist(q, id, &sq8_step))
}

#[test]
fn distance_approximation_is_tight() {
    let base = random_vectors(500, 32, 7);
    let queries = random_vectors(20, 32, 8);
    let cb = train(&base);
    for qi in 0..queries.count {
        let q = queries.get(qi);
        for id in 0..base.count as u32 {
            let exact = l2(q, base.get(id as usize));
            let approx = dist(&cb, q, id);
            // uniform [0,1) data, 32 dims: quantization step is 1/255
            // per dim, so absolute error stays far below typical
            // inter-point distances (~O(1))
            assert!(
                (exact - approx).abs() < 0.05,
                "q{qi} id{id}: exact {exact} vs approx {approx}"
            );
        }
    }
}

#[test]
fn preserves_nearest_neighbor_ordering_mostly() {
    let base = random_vectors(300, 24, 9);
    let queries = random_vectors(30, 24, 10);
    let cb = train(&base);
    let mut agree = 0;
    for qi in 0..queries.count {
        let q = queries.get(qi);
        let exact_nn = (0..base.count as u32)
            .min_by(|&a, &b| l2(q, base.get(a as usize)).total_cmp(&l2(q, base.get(b as usize))))
            .unwrap();
        let approx_nn = (0..base.count as u32)
            .min_by(|&a, &b| dist(&cb, q, a).total_cmp(&dist(&cb, q, b)))
            .unwrap();
        agree += (exact_nn == approx_nn) as usize;
    }
    assert!(agree >= 27, "only {agree}/30 nearest neighbors preserved");
}

#[test]
fn memory_is_quarter_of_f32() {
    let base = random_vectors(1000, 64, 11);
    let cb = Sq8Scorer { codebook: train(&base), step: sq8_step };
    let raw = 1000 * 64 * 4;
    assert!(cb.memory_bytes() < raw / 3, "{} vs raw {raw}", cb.memory_bytes());
    assert_eq!(cb.memory_bytes(), 1000 * 64 + 2 * 64 * 4);
}

#[test]
fn constant_dimension_roundtrips() {
    let base = FloatVectors::from_raw(2, bits(&[5.0, 1.0, 5.0, 2.0, 5.0, 3.0]));
    let cb = train(&base);
    assert_eq!(dist(&cb, &bits(&[5.0, 1.0]), 0), 0.0);
    assert_eq!(f32::from_bits(cb.scale[0]), 1.0);
}

#[test]
fn codes_span_the_bounds() {
    let base = FloatVectors::from_raw(2, bits(&[-1.0, 7.0, 254.0, f32::NAN, 0.0, 7.0]));
    let cb = train(&base);
    assert_eq!((cb.dim, cb.count), (2, 3));
    assert_eq!(f32::from_bits(cb.min[0]), -1.0);
    assert_eq!(f32::from_bits(cb.scale[0]), 1.0);
    // a NaN does not count
    assert_eq!(f32::from_bits(cb.min[1]), 7.0);
    assert_eq!(cb.code(0), &[0, 0]);
    assert_eq!(cb.code(1)[0], 255);
    assert_eq!(cb.code(2), &[1, 0]);
}

#[test]
fn codebook_files_roundtrip() {
    let cb = train(&random_vectors(17, 5, 3));
    let mut bytes = cb.save();
    assert_eq!(bytes.len(), 20 + 8 * 5 + 17 * 5);
    bytes.push(1);
    let loaded = Sq8Codebook::load(&bytes).ok().unwrap();
    assert_eq!((loaded.dim, loaded.count), (5, 17));
    assert_eq!(loaded.min, cb.min);
    assert_eq!(loaded.scale, cb.scale);
    assert_eq!(loaded.codes, cb.codes);

    let broken = |at: usize, value: u8| {
        let mut b = bytes.clone();
        b[at] = value;
        Sq8Codebook::load(&b).err()
    };
    assert_eq!(Sq8Codebook::load(&bytes[..19]).err(), Some(CodebookError::UnexpectedEof));
    assert_eq!(
        Sq8Codebook::load(&bytes[..bytes.len() - 2]).err(),
        Some(CodebookError::UnexpectedEof)
    );
    assert_eq!(broken(3, 0), Some(CodebookError::NotACodebook));
    assert_eq!(broken(5, 1), Some(CodebookError::UnsupportedVersion));
    assert_eq!(broken(16, 0), Some(CodebookError::CorruptHeader));
    assert_eq!(broken(15, 0xff), Some(CodebookError::UnexpectedEof));
}

#[test]
fn either_scorer_routes() {
    let base = random_vectors(4, 3, 1);
    let q = base.get(2).to_vec();
    let codebook = train(&base);
    let approx = codebook.dist(&q, 1, &sq8_step);
    let exact = ExactScorer { vectors: base, step, plus };
    let known = exact.score(&q, 1);
    let memory = exact.memory_bytes();
    let quantized = Sq8Scorer { codebook, step: sq8_step };
    let a: Scorer<_, Sq8Scorer<fn(u32, u32, u32, u32, u8) -> u32>> = Scorer::Exact(exact);
    assert_eq!(a.score(&q, 1), known);
    assert_eq!(a.memory_bytes(), memory);
    assert_eq!(a.num_points(), 4);
    let b: Scorer<ExactScorer<fn(u32, u32, u32) -> u32, fn(u32, u32) -> u32>, _> = Scorer::Sq8(quantized);
    assert_eq!(b.score(&q, 1), approx);
    assert_eq!(b.memory_bytes(), 4 * 3 + 2 * 3 * 4);
    assert_eq!(b.num_points(), 4);
}
