//! Scalar quantization (SQ8): one byte per dimension for routing.
//!
//! Per-dimension affine codes: `value ≈ min[d] + code * scale[d]`. Distance
//! is asymmetric (f32 query vs decoded code), so there is no query
//! quantization error. 4x smaller than f32; with block-side exact rerank the
//! quantization error only affects which nodes get explored, never the
//! returned scores.

use vstd::prelude::*;

use crate::bits::{at_most, is_nan, less, position, precedes, INFINITY};
use crate::bytes::{
    law_long_roundtrip, law_word_roundtrip, law_words_roundtrip, le32, le64, le_words, lemma_concat, long_at, push_u32,
    push_u64, push_words, read_u32, read_u64, read_words, word_at, words_at,
};
use crate::dataset::{lemma_row_bounds, FloatVectors};
use crate::scorer::RouteScorer;
use crate::vamana::ONE;

verus! {

/// The bit pattern of negative infinity.
pub const NEG_INFINITY: u32 = 0xff80_0000;

/// Codes for `count` vectors of `dim` elements.
pub struct Sq8Codebook {
    pub dim: usize,
    pub count: usize,
    pub min: Vec<u32>,
    /// (max-min)/255 per dimension; 1.0 for constant dimensions.
    pub scale: Vec<u32>,
    pub codes: Vec<u8>,
}

/// The least of the first `n` elements of column `d`; NaNs are passed over.
pub open spec fn lowest(base: FloatVectors, d: int, n: nat) -> u32
    decreases n,
{
    if n == 0 {
        INFINITY
    } else {
        let before = lowest(base, d, (n - 1) as nat);
        let x = base.row(n - 1)[d];
        if precedes(x, before) {
            x
        } else {
            before
        }
    }
}

/// The greatest of the first `n` elements of column `d`; NaNs are passed
/// over.
pub open spec fn highest(base: FloatVectors, d: int, n: nat) -> u32
    decreases n,
{
    if n == 0 {
        NEG_INFINITY
    } else {
        let before = highest(base, d, (n - 1) as nat);
        let x = base.row(n - 1)[d];
        if precedes(before, x) {
            x
        } else {
            before
        }
    }
}

/// A dimension starts at its least element, and its step goes by its bounds;
/// a constant dimension has the step 1.0.
pub open spec fn spans<D: Fn(u32, u32) -> u32>(base: FloatVectors, step: &D, d: int, min: u32, scale: u32) -> bool {
    let lo = lowest(base, d, base.count as nat);
    let hi = highest(base, d, base.count as nat);
    &&& min == lo
    &&& if precedes(lo, hi) {
        call_ensures(*step, (lo, hi), scale)
    } else {
        scale == ONE
    }
}

impl Sq8Codebook {
    /// One offset and one step per dimension, and one code per element.
    pub open spec fn wf(&self) -> bool {
        &&& self.dim > 0
        &&& self.min@.len() == self.dim
        &&& self.scale@.len() == self.dim
        &&& self.codes@.len() == self.count * self.dim
        &&& self.codes@.len() <= usize::MAX
    }

    /// The codes of a vector.
    pub open spec fn code_of(&self, id: int) -> Seq<u8> {
        self.codes@.subrange(id * self.dim, (id + 1) * self.dim)
    }

    /// Quantizes vectors: `step` gives the width of a step from the bounds of
    /// a dimension, and `encode` the code of an element, given the element,
    /// the lower bound and the step.
    pub fn train<D: Fn(u32, u32) -> u32, C: Fn(u32, u32, u32) -> u8>(base: &FloatVectors, step: &D, encode: &C) -> (
        cb: Self)
        requires
            base.wf(),
            forall|lo: u32, hi: u32| #[trigger] call_requires(*step, (lo, hi)),
            forall|x: u32, lo: u32, s: u32| #[trigger] call_requires(*encode, (x, lo, s)),
        ensures
            cb.wf(),
            cb.dim == base.dim,
            cb.count == base.count,
            forall|d: int| 0 <= d < cb.dim ==> #[trigger] spans(*base, step, d, cb.min@[d], cb.scale@[d]),
            forall|i: int, d: int|
                0 <= i < cb.count && 0 <= d < cb.dim ==> call_ensures(
                    *encode,
                    (base.row(i)[d], cb.min@[d], cb.scale@[d]),
                    #[trigger] cb.code_of(i)[d],
                ),
    {
        let dim: usize = base.dim;
        let mut min: Vec<u32> = Vec::new();
        let mut scale: Vec<u32> = Vec::new();
        let mut d: usize = 0;
        while d < dim
            invariant
                d <= dim,
                dim == base.dim,
                base.wf(),
                forall|lo: u32, hi: u32| #[trigger] call_requires(*step, (lo, hi)),
                min@.len() == d,
                scale@.len() == d,
                forall|k: int| 0 <= k < d ==> #[trigger] spans(*base, step, k, min@[k], scale@[k]),
            decreases dim - d,
        {
            let mut lo: u32 = INFINITY;
            let mut hi: u32 = NEG_INFINITY;
            let mut i: usize = 0;
            while i < base.count
                invariant
                    i <= base.count,
                    d < dim,
                    dim == base.dim,
                    base.wf(),
                    lo == lowest(*base, d as int, i as nat),
                    hi == highest(*base, d as int, i as nat),
                decreases base.count - i,
            {
                let x: u32 = base.get(i)[d];
                if less(x, lo) {
                    lo = x;
                }
                if less(hi, x) {
                    hi = x;
                }
                i += 1;
            }
            min.push(lo);
            let s: u32 = if less(lo, hi) {
                step(lo, hi)
            } else {
                ONE
            };
            scale.push(s);
            assert(spans(*base, step, d as int, lo, s));
            d += 1;
        }
        let mut codes: Vec<u8> = Vec::new();
        let mut i: usize = 0;
        while i < base.count
            invariant
                i <= base.count,
                dim == base.dim,
                base.wf(),
                min@.len() == dim,
                scale@.len() == dim,
                forall|x: u32, lo: u32, s: u32| #[trigger] call_requires(*encode, (x, lo, s)),
                codes@.len() == i * dim,
                forall|k: int, d: int|
                    0 <= k < i && 0 <= d < dim ==> call_ensures(
                        *encode,
                        (base.row(k)[d], min@[d], scale@[d]),
                        #[trigger] codes@[k * dim + d],
                    ),
            decreases base.count - i,
        {
            let row = base.get(i);
            let ghost before = codes@;
            proof {
                lemma_row_bounds(i as int, dim as int, base.count as int);
            }
            let mut d: usize = 0;
            while d < dim
                invariant
                    d <= dim,
                    row@ == base.row(i as int),
                    row@.len() == dim,
                    min@.len() == dim,
                    scale@.len() == dim,
                    forall|x: u32, lo: u32, s: u32| #[trigger] call_requires(*encode, (x, lo, s)),
                    before.len() == i * dim,
                    codes@.len() == before.len() + d,
                    forall|k: int| 0 <= k < before.len() ==> codes@[k] == before[k],
                    forall|k: int|
                        0 <= k < d ==> call_ensures(
                            *encode,
                            (row@[k], min@[k], scale@[k]),
                            #[trigger] codes@[i * dim + k],
                        ),
                decreases dim - d,
            {
                let c: u8 = encode(row[d], min[d], scale[d]);
                codes.push(c);
                d += 1;
            }
            proof {
                assert forall|k: int, d: int| 0 <= k < i + 1 && 0 <= d < dim implies call_ensures(
                    *encode,
                    (base.row(k)[d], min@[d], scale@[d]),
                    #[trigger] codes@[k * dim + d],
                ) by {
                    if k < i {
                        lemma_row_bounds(k, dim as int, i as int);
                        assert(codes@[k * dim + d] == before[k * dim + d]);
                    }
                }
            }
            i += 1;
        }
        assert(codes@.len() == codes.len());
        let cb = Sq8Codebook { dim, count: base.count, min, scale, codes };
        proof {
            assert forall|i: int, d: int| 0 <= i < cb.count && 0 <= d < cb.dim implies call_ensures(
                *encode,
                (base.row(i)[d], cb.min@[d], cb.scale@[d]),
                #[trigger] cb.code_of(i)[d],
            ) by {
                lemma_row_bounds(i, dim as int, cb.count as int);
                assert(cb.code_of(i)[d] == cb.codes@[i * dim + d]);
            }
        }
        cb
    }

    /// The codes of a vector.
    pub fn code(&self, id: u32) -> (c: &[u8])
        requires
            self.wf(),
            id < self.count,
        ensures
            c@ == self.code_of(id as int),
            c@.len() == self.dim,
    {
        let i: usize = id as usize;
        proof {
            lemma_row_bounds(id as int, self.dim as int, self.count as int);
        }
        vstd::slice::slice_subrange(self.codes.as_slice(), i * self.dim, i * self.dim + self.dim)
    }

    /// Asymmetric squared L2: f32 query against the decoded code. `step` adds
    /// the square of one difference: it is given the accumulator, the query's
    /// element, the lower bound, the step and the code.
    pub fn dist<K: Fn(u32, u32, u32, u32, u8) -> u32>(&self, q: &[u32], id: u32, step: &K) -> (sum: u32)
        requires
            self.wf(),
            id < self.count,
            q@.len() == self.dim,
            steady_decode(step),
        ensures
            sum == self.decoded_distance(step, q@, id, self.dim as nat),
    {
        let code = self.code(id);
        let mut sum: u32 = 0;
        let mut d: usize = 0;
        while d < self.dim
            invariant
                d <= self.dim,
                self.wf(),
                q@.len() == self.dim,
                code@ == self.code_of(id as int),
                code@.len() == self.dim,
                steady_decode(step),
                sum == self.decoded_distance(step, q@, id, d as nat),
            decreases self.dim - d,
        {
            let r: u32 = step(sum, q[d], self.min[d], self.scale[d], code[d]);
            assert(call_ensures(
                *step,
                (sum, q@[d as int], self.min@[d as int], self.scale@[d as int], code@[d as int]),
                r,
            ));
            sum = r;
            d += 1;
        }
        sum
    }

    /// The distance over the first `dims` dimensions.
    pub open spec fn decoded_distance<K: Fn(u32, u32, u32, u32, u8) -> u32>(
        &self,
        step: &K,
        q: Seq<u32>,
        id: u32,
        dims: nat,
    ) -> u32
        decreases dims,
    {
        if dims == 0 {
            0
        } else {
            let d = dims - 1;
            decode_step(
                step,
                self.decoded_distance(step, q, id, d as nat),
                q[d],
                self.min@[d],
                self.scale@[d],
                self.code_of(id as int)[d],
            )
        }
    }

    /// Bytes of codes, offsets and steps.
    pub open spec fn footprint(&self) -> usize {
        let codes: usize = self.codes.len();
        let bounds: usize = self.min.len();
        let steps: usize = self.scale.len();
        codes.wrapping_add(bounds.wrapping_add(steps).wrapping_mul(4))
    }
}

/// The step takes any numbers, and always gives the same for the same.
pub open spec fn steady_decode<K: Fn(u32, u32, u32, u32, u8) -> u32>(step: &K) -> bool {
    &&& forall|a: u32, q: u32, lo: u32, s: u32, c: u8| #[trigger] call_requires(*step, (a, q, lo, s, c))
    &&& forall|a: u32, q: u32, lo: u32, s: u32, c: u8, x: u32, y: u32| #[trigger]
        call_ensures(*step, (a, q, lo, s, c), x) && #[trigger] call_ensures(*step, (a, q, lo, s, c), y) ==> x == y
}

/// What a steady step gives.
pub open spec fn decode_step<K: Fn(u32, u32, u32, u32, u8) -> u32>(
    step: &K,
    acc: u32,
    q: u32,
    lo: u32,
    s: u32,
    c: u8,
) -> u32 {
    choose|r: u32| call_ensures(*step, (acc, q, lo, s, c), r)
}

/// Approximate routing: quantized codes in RAM, with the arithmetic of their
/// distance (see [`Sq8Codebook::dist`]).
pub struct Sq8Scorer<K> {
    pub codebook: Sq8Codebook,
    pub step: K,
}

impl<K: Fn(u32, u32, u32, u32, u8) -> u32 + Sync> RouteScorer for Sq8Scorer<K> {
    open spec fn covers(&self, query: Seq<u32>, id: u32) -> bool {
        &&& self.codebook.wf()
        &&& query.len() == self.codebook.dim
        &&& id < self.codebook.count
        &&& steady_decode(&self.step)
    }

    open spec fn distance(&self, query: Seq<u32>, id: u32) -> u32 {
        self.codebook.decoded_distance(&self.step, query, id, self.codebook.dim as nat)
    }

    open spec fn points(&self) -> nat {
        self.codebook.count as nat
    }

    open spec fn resident(&self) -> usize {
        self.codebook.footprint()
    }

    fn score(&self, query: &[u32], id: u32) -> (d: u32) {
        self.codebook.dist(query, id, &self.step)
    }

    fn num_points(&self) -> (n: usize) {
        self.codebook.count
    }

    fn memory_bytes(&self) -> (n: usize) {
        let codes: usize = self.codebook.codes.len();
        let bounds: usize = self.codebook.min.len();
        let steps: usize = self.codebook.scale.len();
        codes.wrapping_add(bounds.wrapping_add(steps).wrapping_mul(4))
    }
}

/// Codes take a quarter of the memory of the vectors, but for the bounds and
/// steps, which do not grow with the number of vectors.
pub proof fn law_codes_take_a_quarter(cb: Sq8Codebook)
    requires
        cb.wf(),
        cb.count * cb.dim + 8 * cb.dim <= usize::MAX,
    ensures
        4 * cb.footprint() == 4 * (cb.count * cb.dim) + 32 * cb.dim,
{
    let bounds: usize = cb.min.len();
    let steps: usize = cb.scale.len();
    let both: usize = bounds.wrapping_add(steps);
    assert(cb.count * cb.dim >= 0) by (nonlinear_arith);
    assert(both == 2 * cb.dim);
    vstd::arithmetic::div_mod::lemma_small_mod((both * 4) as nat, (usize::MAX + 1) as nat);
    assert(both.wrapping_mul(4) == 8 * cb.dim);
}

/// The bounds of a dimension hold every number in it.
pub proof fn law_bounds_hold_the_column(base: FloatVectors, d: int, n: nat, i: int)
    requires
        0 <= i < n,
        !is_nan(base.row(i)[d]),
    ensures
        at_most(lowest(base, d, n), base.row(i)[d]),
        at_most(base.row(i)[d], highest(base, d, n)),
    decreases n,
{
    lemma_bounds_are_numbers(base, d, n);
    lemma_bounds_are_numbers(base, d, (n - 1) as nat);
    if i < n - 1 {
        law_bounds_hold_the_column(base, d, (n - 1) as nat, i);
    }
}

proof fn lemma_bounds_are_numbers(base: FloatVectors, d: int, n: nat)
    ensures
        !is_nan(lowest(base, d, n)),
        !is_nan(highest(base, d, n)),
    decreases n,
{
    if n > 0 {
        lemma_bounds_are_numbers(base, d, (n - 1) as nat);
    }
}

/// A codebook file starts with these bytes.
pub open spec fn codebook_magic() -> Seq<u8> {
    seq![78u8, 86u8, 86u8, 81u8]
}

/// The version of the codebook format.
pub const CODEBOOK_VERSION: u32 = 1;

/// Why bytes are not a codebook file.
#[derive(Debug, Clone, Copy, PartialEq, Eq)]
pub enum CodebookError {
    /// The bytes end before the codebook does.
    UnexpectedEof,
    /// Another kind of file.
    NotACodebook,
    UnsupportedVersion,
    /// No dimensions.
    CorruptHeader,
}

/// What keeps bytes from being a codebook file.
pub open spec fn codebook_error(bytes: Seq<u8>) -> Option<CodebookError> {
    let count = long_at(bytes, 8);
    let dim = word_at(bytes, 16);
    if bytes.len() < 20 {
        Some(CodebookError::UnexpectedEof)
    } else if bytes.take(4) != codebook_magic() {
        Some(CodebookError::NotACodebook)
    } else if word_at(bytes, 4) != CODEBOOK_VERSION {
        Some(CodebookError::UnsupportedVersion)
    } else if dim == 0 {
        Some(CodebookError::CorruptHeader)
    } else if bytes.len() < 20 + 8 * dim + count * dim {
        Some(CodebookError::UnexpectedEof)
    } else {
        None
    }
}

impl Sq8Codebook {
    /// The bytes of the codebook's file: a header, then offsets, steps and
    /// codes.
    pub open spec fn file(&self) -> Seq<u8> {
        codebook_magic() + le32(CODEBOOK_VERSION) + le64(self.count as u64) + le32(self.dim as u32) + le_words(
            self.min@,
        ) + le_words(self.scale@) + self.codes@
    }

    /// The content of the codebook's file.
    pub fn save(&self) -> (bytes: Vec<u8>)
        requires
            self.dim <= u32::MAX,
        ensures
            bytes@ == self.file(),
    {
        let mut out: Vec<u8> = Vec::new();
        out.push(78);
        out.push(86);
        out.push(86);
        out.push(81);
        push_u32(&mut out, CODEBOOK_VERSION);
        push_u64(&mut out, self.count as u64);
        push_u32(&mut out, self.dim as u32);
        push_words(&mut out, self.min.as_slice());
        push_words(&mut out, self.scale.as_slice());
        out.extend_from_slice(self.codes.as_slice());
        assert(out@ =~= self.file());
        out
    }

    /// Reads the content of a codebook file. Whatever follows the codes is
    /// ignored.
    pub fn load(bytes: &[u8]) -> (r: Result<Self, CodebookError>)
        ensures
            match codebook_error(bytes@) {
                Some(e) => r is Err && r->Err_0 == e,
                None => {
                    let count = long_at(bytes@, 8) as int;
                    let dim = word_at(bytes@, 16) as int;
                    &&& r is Ok
                    &&& r->Ok_0.wf()
                    &&& r->Ok_0.count == count
                    &&& r->Ok_0.dim == dim
                    &&& r->Ok_0.min@ == words_at(bytes@, 20, dim as nat)
                    &&& r->Ok_0.scale@ == words_at(bytes@, 20 + 4 * dim, dim as nat)
                    &&& r->Ok_0.codes@ == bytes@.subrange(20 + 8 * dim, 20 + 8 * dim + count * dim)
                },
            },
    {
        assert(bytes@.len() == bytes.len());
        if bytes.len() < 20 {
            return Err(CodebookError::UnexpectedEof);
        }
        let magic_ok: bool = bytes[0] == 78 && bytes[1] == 86 && bytes[2] == 86 && bytes[3] == 81;
        proof {
            let head = bytes@.take(4);
            assert(head[0] == bytes@[0] && head[1] == bytes@[1] && head[2] == bytes@[2] && head[3] == bytes@[3]);
            if magic_ok {
                assert(head =~= codebook_magic());
            }
        }
        if !magic_ok {
            return Err(CodebookError::NotACodebook);
        }
        if read_u32(bytes, 4) != CODEBOOK_VERSION {
            return Err(CodebookError::UnsupportedVersion);
        }
        let count: u64 = read_u64(bytes, 8);
        let dim: u32 = read_u32(bytes, 16);
        if dim == 0 {
            return Err(CodebookError::CorruptHeader);
        }
        proof {
            vstd::arithmetic::mul::lemma_mul_upper_bound(
                count as int,
                0xffff_ffff_ffff_ffffint,
                dim as int,
                0xffff_ffffint,
            );
            vstd::arithmetic::mul::lemma_mul_inequality(1, dim as int, count as int);
            vstd::arithmetic::mul::lemma_mul_is_commutative(count as int, dim as int);
        }
        if (bytes.len() as u128) < 20 + 8 * (dim as u128) + count as u128 * dim as u128 {
            return Err(CodebookError::UnexpectedEof);
        }
        let width: usize = dim as usize;
        let rows: usize = count as usize;
        let min = read_words(bytes, 20, width);
        let scale = read_words(bytes, 20 + 4 * width, width);
        let at: usize = 20 + 8 * width;
        let codes = vstd::slice::slice_to_vec(vstd::slice::slice_subrange(bytes, at, at + rows * width));
        assert(codes@.len() == codes.len());
        Ok(Sq8Codebook { dim: width, count: rows, min, scale, codes })
    }
}

/// Loading what was saved gives back the codebook, whatever follows it in the
/// file.
pub proof fn law_codebook_roundtrip(cb: Sq8Codebook, rest: Seq<u8>)
    requires
        cb.wf(),
        cb.dim <= u32::MAX,
    ensures
        ({
            let f = cb.file() + rest;
            let dim = cb.dim as int;
            &&& codebook_error(f) is None
            &&& long_at(f, 8) == cb.count
            &&& word_at(f, 16) == cb.dim
            &&& words_at(f, 20, cb.dim as nat) == cb.min@
            &&& words_at(f, 20 + 4 * dim, cb.dim as nat) == cb.scale@
            &&& f.subrange(20 + 8 * dim, 20 + 8 * dim + cb.count * dim) == cb.codes@
        }),
{
    let dim = cb.dim as int;
    let s4 = codebook_magic();
    let s8 = s4 + le32(CODEBOOK_VERSION);
    let s16 = s8 + le64(cb.count as u64);
    let s20 = s16 + le32(cb.dim as u32);
    let mins = s20 + le_words(cb.min@);
    let steps = mins + le_words(cb.scale@);
    let all = steps + cb.codes@;
    let f = all + rest;
    assert(f == cb.file() + rest);
    lemma_concat(s4, le32(CODEBOOK_VERSION));
    lemma_concat(s8, le64(cb.count as u64));
    lemma_concat(s16, le32(cb.dim as u32));
    lemma_concat(s20, le_words(cb.min@));
    lemma_concat(mins, le_words(cb.scale@));
    lemma_concat(steps, cb.codes@);
    lemma_concat(all, rest);
    assert(f.take(4) == f.subrange(0, 4));
    assert(s4.subrange(0, 4) =~= s4);
    law_word_roundtrip(CODEBOOK_VERSION, f, 4);
    law_long_roundtrip(cb.count as u64, f, 8);
    law_word_roundtrip(cb.dim as u32, f, 16);
    law_words_roundtrip(cb.min@, f, 20);
    law_words_roundtrip(cb.scale@, f, 20 + 4 * dim);
}

/// Row `i` is the first of the rows that are least in column `d`, among the
/// first `n` rows; NaNs are passed over.
pub open spec fn first_least(base: FloatVectors, d: int, n: nat, i: int) -> bool {
    &&& 0 <= i < n
    &&& !is_nan(base.row(i)[d])
    &&& forall|k: int|
        0 <= k < n && !is_nan(#[trigger] base.row(k)[d]) ==> position(base.row(i)[d]) <= position(base.row(k)[d])
    &&& forall|k: int|
        0 <= k < i && !is_nan(#[trigger] base.row(k)[d]) ==> position(base.row(i)[d]) < position(base.row(k)[d])
}

/// Row `i` is the first of the rows that are greatest in column `d`, among
/// the first `n` rows; NaNs are passed over.
pub open spec fn first_greatest(base: FloatVectors, d: int, n: nat, i: int) -> bool {
    &&& 0 <= i < n
    &&& !is_nan(base.row(i)[d])
    &&& forall|k: int|
        0 <= k < n && !is_nan(#[trigger] base.row(k)[d]) ==> position(base.row(i)[d]) >= position(base.row(k)[d])
    &&& forall|k: int|
        0 <= k < i && !is_nan(#[trigger] base.row(k)[d]) ==> position(base.row(i)[d]) > position(base.row(k)[d])
}

/// The bounds of a dimension are its least and its greatest element, as they
/// first occur, and its step is what `step` gives for these two: wherever two
/// rows hold different numbers. Where no two numbers differ, the step is 1.0.
/// The offset is the least element, or infinity where there is no number.
pub proof fn law_steps_go_by_the_rows<D: Fn(u32, u32) -> u32>(
    base: FloatVectors,
    step: &D,
    d: int,
    min: u32,
    scale: u32,
    i: int,
    j: int,
)
    requires
        spans(base, step, d, min, scale),
    ensures
        first_least(base, d, base.count as nat, i) ==> min == base.row(i)[d],
        (forall|k: int| 0 <= k < base.count ==> is_nan(#[trigger] base.row(k)[d])) ==> min == 0x7f80_0000u32,
        first_least(base, d, base.count as nat, i) && first_greatest(base, d, base.count as nat, j) && position(
            base.row(i)[d],
        ) < position(base.row(j)[d]) ==> call_ensures(*step, (base.row(i)[d], base.row(j)[d]), scale),
        (forall|k: int, l: int|
            0 <= k < base.count && 0 <= l < base.count && !is_nan(#[trigger] base.row(k)[d]) && !is_nan(
                #[trigger] base.row(l)[d],
            ) ==> position(base.row(k)[d]) == position(base.row(l)[d])) ==> scale == 0x3f80_0000u32,
{
    let n = base.count as nat;
    lemma_lowest(base, d, n);
    lemma_highest(base, d, n);
    let lo = lowest(base, d, n);
    let hi = highest(base, d, n);
    if first_least(base, d, n, i) {
        lemma_lowest_is(base, d, n, i);
    }
    if first_greatest(base, d, n, j) {
        lemma_highest_is(base, d, n, j);
    }
    if forall|k: int| 0 <= k < base.count ==> is_nan(#[trigger] base.row(k)[d]) {
        if lo != INFINITY {
            let k = choose|k: int| 0 <= k < n && #[trigger] base.row(k)[d] == lo && !is_nan(lo);
            assert(is_nan(base.row(k)[d]));
        }
    }
    if forall|k: int, l: int|
        0 <= k < base.count && 0 <= l < base.count && !is_nan(#[trigger] base.row(k)[d]) && !is_nan(
            #[trigger] base.row(l)[d],
        ) ==> position(base.row(k)[d]) == position(base.row(l)[d]) {
        if precedes(lo, hi) {
            if lo == INFINITY {
                assert(position(hi) <= position(INFINITY));
            }
            if hi == NEG_INFINITY {
                assert(position(lo) >= position(NEG_INFINITY));
            }
            let k = choose|k: int| 0 <= k < n && #[trigger] base.row(k)[d] == lo && !is_nan(lo);
            let l = choose|l: int| 0 <= l < n && #[trigger] base.row(l)[d] == hi && !is_nan(hi);
            assert(position(base.row(k)[d]) == position(base.row(l)[d]));
        }
    }
}

/// The lower bound is infinity or an element, and no number is below it.
proof fn lemma_lowest(base: FloatVectors, d: int, n: nat)
    ensures
        !is_nan(lowest(base, d, n)),
        position(lowest(base, d, n)) <= position(INFINITY),
        position(lowest(base, d, n)) >= position(NEG_INFINITY),
        lowest(base, d, n) == INFINITY || exists|k: int|
            0 <= k < n && #[trigger] base.row(k)[d] == lowest(base, d, n) && !is_nan(lowest(base, d, n)),
        forall|k: int|
            0 <= k < n && !is_nan(#[trigger] base.row(k)[d]) ==> position(lowest(base, d, n)) <= position(
                base.row(k)[d],
            ),
    decreases n,
{
    if n > 0 {
        lemma_lowest(base, d, (n - 1) as nat);
        let before = lowest(base, d, (n - 1) as nat);
        let x = base.row(n - 1)[d];
        if precedes(x, before) {
            assert(base.row(n - 1)[d] == lowest(base, d, n));
        } else if before != INFINITY {
            let k = choose|k: int| 0 <= k < n - 1 && #[trigger] base.row(k)[d] == before && !is_nan(before);
            assert(base.row(k)[d] == lowest(base, d, n));
        }
    }
}

/// The upper bound is negative infinity or an element, and no number is
/// above it.
proof fn lemma_highest(base: FloatVectors, d: int, n: nat)
    ensures
        !is_nan(highest(base, d, n)),
        position(highest(base, d, n)) <= position(INFINITY),
        position(highest(base, d, n)) >= position(NEG_INFINITY),
        highest(base, d, n) == NEG_INFINITY || exists|k: int|
            0 <= k < n && #[trigger] base.row(k)[d] == highest(base, d, n) && !is_nan(highest(base, d, n)),
        forall|k: int|
            0 <= k < n && !is_nan(#[trigger] base.row(k)[d]) ==> position(highest(base, d, n)) >= position(
                base.row(k)[d],
            ),
    decreases n,
{
    if n > 0 {
        lemma_highest(base, d, (n - 1) as nat);
        let before = highest(base, d, (n - 1) as nat);
        let x = base.row(n - 1)[d];
        if precedes(before, x) {
            assert(base.row(n - 1)[d] == highest(base, d, n));
        } else if before != NEG_INFINITY {
            let k = choose|k: int| 0 <= k < n - 1 && #[trigger] base.row(k)[d] == before && !is_nan(before);
            assert(base.row(k)[d] == highest(base, d, n));
        }
    }
}

proof fn lemma_lowest_is(base: FloatVectors, d: int, n: nat, i: int)
    requires
        first_least(base, d, n, i),
    ensures
        lowest(base, d, n) == base.row(i)[d],
    decreases n,
{
    let before = lowest(base, d, (n - 1) as nat);
    lemma_lowest(base, d, (n - 1) as nat);
    if i == n - 1 {
        let x = base.row(i)[d];
        if before == INFINITY {
            if !precedes(x, before) {
                assert(position(x) == position(INFINITY));
            }
        } else {
            let k = choose|k: int| 0 <= k < n - 1 && #[trigger] base.row(k)[d] == before && !is_nan(before);
            assert(position(base.row(i)[d]) < position(base.row(k)[d]));
        }
    } else {
        lemma_lowest_is(base, d, (n - 1) as nat, i);
        if !is_nan(base.row(n - 1)[d]) {
            assert(position(base.row(i)[d]) <= position(base.row(n - 1)[d]));
        }
    }
}

proof fn lemma_highest_is(base: FloatVectors, d: int, n: nat, i: int)
    requires
        first_greatest(base, d, n, i),
    ensures
        highest(base, d, n) == base.row(i)[d],
    decreases n,
{
    let before = highest(base, d, (n - 1) as nat);
    lemma_highest(base, d, (n - 1) as nat);
    if i == n - 1 {
        let x = base.row(i)[d];
        if before == NEG_INFINITY {
            if !precedes(before, x) {
                assert(position(x) == position(NEG_INFINITY));
            }
        } else {
            let k = choose|k: int| 0 <= k < n - 1 && #[trigger] base.row(k)[d] == before && !is_nan(before);
            assert(position(base.row(i)[d]) > position(base.row(k)[d]));
        }
    } else {
        lemma_highest_is(base, d, (n - 1) as nat, i);
        if !is_nan(base.row(n - 1)[d]) {
            assert(position(base.row(i)[d]) >= position(base.row(n - 1)[d]));
        }
    }
}

/// A column that holds a number has a first least and a first greatest row.
pub proof fn law_columns_have_bounds(base: FloatVectors, d: int, k: int)
    requires
        0 <= k < base.count,
        !is_nan(base.row(k)[d]),
    ensures
        exists|i: int| #[trigger] first_least(base, d, base.count as nat, i),
        exists|i: int| #[trigger] first_greatest(base, d, base.count as nat, i),
{
    lemma_has_least(base, d, base.count as nat, k);
    lemma_has_greatest(base, d, base.count as nat, k);
}

proof fn lemma_has_least(base: FloatVectors, d: int, n: nat, k: int)
    requires
        0 <= k < n,
        !is_nan(base.row(k)[d]),
    ensures
        exists|i: int| #[trigger] first_least(base, d, n, i),
    decreases n,
{
    let m = (n - 1) as nat;
    if exists|l: int| 0 <= l < m && !is_nan(#[trigger] base.row(l)[d]) {
        let l = choose|l: int| 0 <= l < m && !is_nan(#[trigger] base.row(l)[d]);
        lemma_has_least(base, d, m, l);
        let i = choose|i: int| #[trigger] first_least(base, d, m, i);
        if !is_nan(base.row(n - 1)[d]) && position(base.row(n - 1)[d]) < position(base.row(i)[d]) {
            assert(first_least(base, d, n, n - 1));
        } else {
            assert(first_least(base, d, n, i));
        }
    } else {
        assert(first_least(base, d, n, k));
    }
}

proof fn lemma_has_greatest(base: FloatVectors, d: int, n: nat, k: int)
    requires
        0 <= k < n,
        !is_nan(base.row(k)[d]),
    ensures
        exists|i: int| #[trigger] first_greatest(base, d, n, i),
    decreases n,
{
    let m = (n - 1) as nat;
    if exists|l: int| 0 <= l < m && !is_nan(#[trigger] base.row(l)[d]) {
        let l = choose|l: int| 0 <= l < m && !is_nan(#[trigger] base.row(l)[d]);
        lemma_has_greatest(base, d, m, l);
        let i = choose|i: int| #[trigger] first_greatest(base, d, m, i);
        if !is_nan(base.row(n - 1)[d]) && position(base.row(n - 1)[d]) > position(base.row(i)[d]) {
            assert(first_greatest(base, d, n, n - 1));
        } else {
            assert(first_greatest(base, d, n, i));
        }
    } else {
        assert(first_greatest(base, d, n, k));
    }
}

/// The code of an element stands in its row, at the place of its dimension.
pub proof fn law_codes_stand_row_by_row(cb: Sq8Codebook, id: int, d: int)
    requires
        cb.wf(),
        0 <= id < cb.count,
        0 <= d < cb.dim,
    ensures
        cb.code_of(id).len() == cb.dim,
        cb.code_of(id)[d] == cb.codes@[id * cb.dim + d],
{
    lemma_row_bounds(id, cb.dim as int, cb.count as int);
}

/// What a steady decoding step is said to give is what a call of it gives.
pub proof fn law_decoding_gives_what_it_returns<K: Fn(u32, u32, u32, u32, u8) -> u32>(
    step: &K,
    acc: u32,
    q: u32,
    lo: u32,
    s: u32,
    c: u8,
    r: u32,
)
    requires
        steady_decode(step),
        call_ensures(*step, (acc, q, lo, s, c), r),
    ensures
        decode_step(step, acc, q, lo, s, c) == r,
{
}

/// Every dimension takes part in the decoded distance exactly once, in order:
/// with the query's element, the offset, the step and the code of that
/// dimension. `sums` holds the accumulator before and after each of them.
pub proof fn law_every_dimension_counts_once<K: Fn(u32, u32, u32, u32, u8) -> u32>(
    cb: Sq8Codebook,
    step: &K,
    q: Seq<u32>,
    id: u32,
    sums: Seq<u32>,
)
    requires
        cb.wf(),
        id < cb.count,
        sums.len() == cb.dim + 1,
        sums[0] == 0,
        forall|d: int|
            0 <= d < cb.dim ==> sums[d + 1] == decode_step(
                step,
                #[trigger] sums[d],
                q[d],
                cb.min@[d],
                cb.scale@[d],
                cb.codes@[id * cb.dim + d],
            ),
    ensures
        cb.decoded_distance(step, q, id, cb.dim as nat) == sums[cb.dim as int],
{
    lemma_decoded(cb, step, q, id, sums, cb.dim as nat);
}

proof fn lemma_decoded<K: Fn(u32, u32, u32, u32, u8) -> u32>(
    cb: Sq8Codebook,
    step: &K,
    q: Seq<u32>,
    id: u32,
    sums: Seq<u32>,
    dims: nat,
)
    requires
        cb.wf(),
        id < cb.count,
        dims <= cb.dim,
        sums.len() == cb.dim + 1,
        sums[0] == 0,
        forall|d: int|
            0 <= d < cb.dim ==> sums[d + 1] == decode_step(
                step,
                #[trigger] sums[d],
                q[d],
                cb.min@[d],
                cb.scale@[d],
                cb.codes@[id * cb.dim + d],
            ),
    ensures
        cb.decoded_distance(step, q, id, dims) == sums[dims as int],
    decreases dims,
{
    if dims > 0 {
        lemma_decoded(cb, step, q, id, sums, (dims - 1) as nat);
        law_codes_stand_row_by_row(cb, id as int, dims - 1);
        assert(sums[dims - 1] == sums[dims - 1]);
    }
}

/// A quantized scorer measures all dimensions of its codebook, scores the
/// points that the codebook has codes for, and takes a byte per code, and four
/// per offset and step.
pub proof fn law_quantized_scorer_goes_by_its_codebook<K: Fn(u32, u32, u32, u32, u8) -> u32 + Sync>(s: Sq8Scorer<K>)
    requires
        s.codebook.wf(),
        s.codebook.count * s.codebook.dim + 8 * s.codebook.dim <= usize::MAX,
    ensures
        s.resident() == s.codebook.count * s.codebook.dim + 8 * s.codebook.dim,
        s.points() == s.codebook.count,
        forall|q: Seq<u32>, id: u32| #[trigger]
            s.distance(q, id) == s.codebook.decoded_distance(&s.step, q, id, s.codebook.dim as nat),
        forall|q: Seq<u32>, id: u32| #[trigger]
            s.covers(q, id) <==> q.len() == s.codebook.dim && id < s.codebook.count && steady_decode(&s.step),
{
    law_codes_take_a_quarter(s.codebook);
}

/// A codebook file is refused for the first of these reasons: it is too short
/// for a header, it does not start as codebook files do, it has another
/// version, it has no dimensions, or it is too short for its codes. Any other
/// bytes are accepted.
pub proof fn law_codebook_refusals(bytes: Seq<u8>)
    ensures
        ({
            let e = codebook_error(bytes);
            let short = bytes.len() < 20;
            let strange = !short && !(bytes[0] == 78 && bytes[1] == 86 && bytes[2] == 86 && bytes[3] == 81);
            let foreign = !short && !strange && word_at(bytes, 4) != 1;
            let flat = !short && !strange && !foreign && word_at(bytes, 16) == 0;
            let cut = !short && !strange && !foreign && !flat && bytes.len() < 20 + 8 * word_at(bytes, 16) + long_at(
                bytes,
                8,
            ) * word_at(bytes, 16);
            &&& e == Some(CodebookError::UnexpectedEof) <==> short || cut
            &&& e == Some(CodebookError::NotACodebook) <==> strange
            &&& e == Some(CodebookError::UnsupportedVersion) <==> foreign
            &&& e == Some(CodebookError::CorruptHeader) <==> flat
            &&& e is None <==> !short && !strange && !foreign && !flat && !cut
        }),
{
    if bytes.len() >= 20 {
        let head = bytes.take(4);
        assert(head[0] == bytes[0] && head[1] == bytes[1] && head[2] == bytes[2] && head[3] == bytes[3]);
        if bytes[0] == 78 && bytes[1] == 86 && bytes[2] == 86 && bytes[3] == 81 {
            assert(head =~= codebook_magic());
        }
    }
}

/// A codebook file holds its parts at these places.
pub proof fn law_codebook_file_layout(cb: Sq8Codebook)
    requires
        cb.wf(),
        cb.dim <= u32::MAX,
    ensures
        ({
            let f = cb.file();
            let dim = cb.dim as int;
            &&& f.len() == 20 + 8 * dim + cb.count * dim
            &&& f[0] == 78 && f[1] == 86 && f[2] == 86 && f[3] == 81
            &&& word_at(f, 4) == 1
            &&& long_at(f, 8) == cb.count
            &&& word_at(f, 16) == cb.dim
            &&& forall|d: int|
                0 <= d < dim ==> word_at(f, 20 + 4 * d) == #[trigger] cb.min@[d]
            &&& forall|d: int|
                0 <= d < dim ==> word_at(f, 20 + 4 * dim + 4 * d) == #[trigger] cb.scale@[d]
            &&& forall|k: int| 0 <= k < cb.count * dim ==> f[20 + 8 * dim + k] == #[trigger] cb.codes@[k]
        }),
{
    let dim = cb.dim as int;
    let f = cb.file();
    law_codebook_roundtrip(cb, Seq::empty());
    assert(f + Seq::<u8>::empty() =~= f);
    law_codebook_refusals(f);
    assert forall|d: int| 0 <= d < dim implies word_at(f, 20 + 4 * d) == #[trigger] cb.min@[d] by {
        assert(words_at(f, 20, cb.dim as nat)[d] == cb.min@[d]);
    }
    assert forall|d: int| 0 <= d < dim implies word_at(f, 20 + 4 * dim + 4 * d) == #[trigger] cb.scale@[d] by {
        assert(words_at(f, 20 + 4 * dim, cb.dim as nat)[d] == cb.scale@[d]);
    }
    assert forall|k: int| 0 <= k < cb.count * dim implies f[20 + 8 * dim + k] == #[trigger] cb.codes@[k] by {
        assert(f.subrange(20 + 8 * dim, 20 + 8 * dim + cb.count * dim)[k] == cb.codes@[k]);
    }
}

/// A trained codebook has, for each dimension, the least element of the column
/// as its offset; and as its step what `step` gives for the least and the
/// greatest element, or one where no two numbers of the column differ. The
/// code of each element is what `encode` gives for it.
pub proof fn law_training_goes_by_the_rows<D: Fn(u32, u32) -> u32, C: Fn(u32, u32, u32) -> u8>(
    base: &FloatVectors,
    step: &D,
    encode: &C,
    cb: Sq8Codebook,
    d: int,
    i: int,
    j: int,
    k: int,
)
    requires
        cb.wf(),
        cb.dim == base.dim,
        cb.count == base.count,
        spans(*base, step, d, cb.min@[d], cb.scale@[d]),
        call_ensures(*encode, (base.row(k)[d], cb.min@[d], cb.scale@[d]), cb.code_of(k)[d]),
        0 <= d < base.dim,
        first_least(*base, d, base.count as nat, i),
        first_greatest(*base, d, base.count as nat, j),
        0 <= k < base.count,
    ensures
        cb.min@[d] == base.row(i)[d],
        position(base.row(i)[d]) < position(base.row(j)[d]) ==> call_ensures(
            *step,
            (base.row(i)[d], base.row(j)[d]),
            cb.scale@[d],
        ),
        position(base.row(i)[d]) == position(base.row(j)[d]) ==> cb.scale@[d] == 0x3f80_0000u32,
        call_ensures(*encode, (base.row(k)[d], cb.min@[d], cb.scale@[d]), cb.codes@[k * base.dim + d]),
{
    law_steps_go_by_the_rows(*base, step, d, cb.min@[d], cb.scale@[d], i, j);
    if position(base.row(i)[d]) == position(base.row(j)[d]) {
        assert forall|k: int, l: int|
            0 <= k < base.count && 0 <= l < base.count && !is_nan(#[trigger] base.row(k)[d]) && !is_nan(
                #[trigger] base.row(l)[d],
            ) implies position(base.row(k)[d]) == position(base.row(l)[d]) by {}
    }
    law_codes_stand_row_by_row(cb, k, d);
}

} // verus!
