//! The TEXMEX benchmark formats (`.fvecs` / `.ivecs`).
//!
//! Record layout (little-endian): `[dim: u32][dim elements]`, repeated.
//! SIFT1M ships as `sift_base.fvecs` (1M x 128), `sift_query.fvecs`
//! (10k x 128) and `sift_groundtruth.ivecs` (10k x 100, neighbor ids
//! sorted by increasing L2 distance).

use vstd::arithmetic::div_mod::{lemma_fundamental_div_mod, lemma_fundamental_div_mod_converse};
use vstd::arithmetic::mul::{lemma_mul_inequality, lemma_mul_is_distributive_add_other_way};
use vstd::prelude::*;

use crate::bytes::{
    law_word_roundtrip, law_words_roundtrip, le32, le_words, read_u32, read_words, word_at, words_at,
};

verus! {

/// Row `i` of a row-major table of `dim` columns.
pub open spec fn row_of(data: Seq<u32>, dim: int, i: int) -> Seq<u32> {
    data.subrange(i * dim, (i + 1) * dim)
}

/// A row lies within the table.
pub proof fn lemma_row_bounds(i: int, dim: int, count: int)
    requires
        0 <= i < count,
        0 <= dim,
    ensures
        0 <= i * dim,
        i * dim + dim == (i + 1) * dim,
        (i + 1) * dim <= count * dim,
{
    lemma_mul_is_distributive_add_other_way(dim, i, 1);
    lemma_mul_inequality(i + 1, count, dim);
    lemma_mul_inequality(0, i, dim);
}

/// Dense row-major vectors of single-precision floats, as bit patterns.
pub struct FloatVectors {
    pub dim: usize,
    pub count: usize,
    pub data: Vec<u32>,
}

impl View for FloatVectors {
    type V = Seq<u32>;

    open spec fn view(&self) -> Seq<u32> {
        self.data@
    }
}

impl FloatVectors {
    /// `count` rows of `dim` elements.
    pub open spec fn wf(&self) -> bool {
        &&& self.dim > 0
        &&& self@.len() == self.count * self.dim
        &&& self@.len() <= usize::MAX
    }

    /// Row `i`.
    pub open spec fn row(&self, i: int) -> Seq<u32> {
        row_of(self@, self.dim as int, i)
    }

    /// A table of `dim` columns over the given elements.
    pub fn from_raw(dim: usize, data: Vec<u32>) -> (v: Self)
        requires
            dim > 0,
            data@.len() % (dim as nat) == 0,
        ensures
            v.wf(),
            v.dim == dim,
            v.count == data@.len() / (dim as nat),
            v@ == data@,
    {
        let count: usize = data.len() / dim;
        proof {
            lemma_fundamental_div_mod(data@.len() as int, dim as int);
            assert(count * dim == dim * count) by (nonlinear_arith);
        }
        FloatVectors { dim, count, data }
    }

    /// Row `i`.
    pub fn get(&self, i: usize) -> (r: &[u32])
        requires
            self.wf(),
            i < self.count,
        ensures
            r@ == self.row(i as int),
            r@.len() == self.dim,
    {
        proof {
            lemma_row_bounds(i as int, self.dim as int, self.count as int);
        }
        vstd::slice::slice_subrange(self.data.as_slice(), i * self.dim, i * self.dim + self.dim)
    }

    /// All rows in order.
    pub fn iter(&self) -> (rows: Vec<&[u32]>)
        requires
            self.wf(),
        ensures
            rows@.len() == self.count,
            forall|i: int| 0 <= i < self.count ==> (#[trigger] rows@[i])@ == self.row(i),
    {
        let mut rows: Vec<&[u32]> = Vec::new();
        let mut i: usize = 0;
        while i < self.count
            invariant
                self.wf(),
                i <= self.count,
                rows@.len() == i,
                forall|j: int| 0 <= j < i ==> (#[trigger] rows@[j])@ == self.row(j),
            decreases self.count - i,
        {
            rows.push(self.get(i));
            i += 1;
        }
        rows
    }

    /// Copy of the first `n` rows (e.g. to benchmark on a query subset).
    pub fn head(&self, n: usize) -> (v: FloatVectors)
        requires
            self.wf(),
        ensures
            v.wf(),
            v.dim == self.dim,
            v.count == (if n < self.count { n } else { self.count }),
            forall|i: int| 0 <= i < v.count ==> #[trigger] v.row(i) == self.row(i),
    {
        let m: usize = if n < self.count { n } else { self.count };
        proof {
            lemma_mul_inequality(m as int, self.count as int, self.dim as int);
            lemma_mul_inequality(0, m as int, self.dim as int);
        }
        let data = vstd::slice::slice_to_vec(
            vstd::slice::slice_subrange(self.data.as_slice(), 0, m * self.dim),
        );
        let v = FloatVectors { dim: self.dim, count: m, data };
        proof {
            assert forall|i: int| 0 <= i < v.count implies #[trigger] v.row(i) == self.row(i) by {
                lemma_row_bounds(i, self.dim as int, m as int);
                assert(v.row(i) =~= self.row(i));
            }
        }
        v
    }
}

/// Dense row-major id lists (ground-truth neighbors).
pub struct IdLists {
    pub dim: usize,
    pub count: usize,
    pub data: Vec<u32>,
}

impl View for IdLists {
    type V = Seq<u32>;

    open spec fn view(&self) -> Seq<u32> {
        self.data@
    }
}

impl IdLists {
    /// `count` lists of `dim` ids.
    pub open spec fn wf(&self) -> bool {
        &&& self.dim > 0
        &&& self@.len() == self.count * self.dim
        &&& self@.len() <= usize::MAX
    }

    /// List `i`.
    pub open spec fn row(&self, i: int) -> Seq<u32> {
        row_of(self@, self.dim as int, i)
    }

    /// List `i`.
    pub fn get(&self, i: usize) -> (r: &[u32])
        requires
            self.wf(),
            i < self.count,
        ensures
            r@ == self.row(i as int),
            r@.len() == self.dim,
    {
        proof {
            lemma_row_bounds(i as int, self.dim as int, self.count as int);
        }
        vstd::slice::slice_subrange(self.data.as_slice(), i * self.dim, i * self.dim + self.dim)
    }
}

/// Why bytes are not a vector file.
#[derive(Debug, Clone, Copy, PartialEq, Eq)]
pub enum VecsError {
    /// There is not even a first dimension.
    TooSmall,
    /// The first dimension is 0 or beyond 65536.
    ImplausibleDimension { dim: u32 },
    /// The size is no multiple of the record size.
    SizeMismatch { size: usize, record: usize },
    /// A record has another dimension than the first.
    RecordDimension { record: usize, dim: u32, expected: u32 },
}

/// The length of a record of `dim` elements.
pub open spec fn record_len(dim: int) -> int {
    4 + 4 * dim
}

/// The first record from `from` on whose dimension is not `dim`.
pub open spec fn odd_record(bytes: Seq<u8>, dim: int, from: int, count: int) -> Option<int>
    decreases count - from,
{
    if from >= count {
        None
    } else if word_at(bytes, from * record_len(dim)) != dim {
        Some(from)
    } else {
        odd_record(bytes, dim, from + 1, count)
    }
}

/// What keeps bytes from being a sequence of equally long records, if only
/// the size and the first dimension are looked at.
pub open spec fn layout_error(bytes: Seq<u8>) -> Option<VecsError> {
    let dim = word_at(bytes, 0);
    let rec = record_len(dim as int);
    if bytes.len() < 4 {
        Some(VecsError::TooSmall)
    } else if dim == 0 || dim > 65536 {
        Some(VecsError::ImplausibleDimension { dim })
    } else if bytes.len() % (rec as nat) != 0 {
        Some(VecsError::SizeMismatch { size: bytes.len() as usize, record: rec as usize })
    } else {
        None
    }
}

/// What keeps bytes from being a vector file.
pub open spec fn vecs_error(bytes: Seq<u8>) -> Option<VecsError> {
    let dim = word_at(bytes, 0);
    match layout_error(bytes) {
        Some(e) => Some(e),
        None => match odd_record(bytes, dim as int, 0, vecs_count(bytes)) {
            Some(r) => Some(
                VecsError::RecordDimension {
                    record: r as usize,
                    dim: word_at(bytes, r * record_len(dim as int)),
                    expected: dim,
                },
            ),
            None => None,
        },
    }
}

/// How many records a vector file holds.
pub open spec fn vecs_count(bytes: Seq<u8>) -> int {
    bytes.len() as int / record_len(word_at(bytes, 0) as int)
}

/// The elements of record `i` of a vector file.
pub open spec fn vecs_row(bytes: Seq<u8>, i: int) -> Seq<u32> {
    let dim = word_at(bytes, 0);
    words_at(bytes, i * record_len(dim as int) + 4, dim as nat)
}

/// The elements of the first `count` records, one record after the other.
pub open spec fn vecs_payload(bytes: Seq<u8>, count: nat) -> Seq<u32>
    decreases count,
{
    if count == 0 {
        Seq::empty()
    } else {
        vecs_payload(bytes, (count - 1) as nat) + vecs_row(bytes, count - 1)
    }
}

proof fn lemma_payload_rows(bytes: Seq<u8>, count: nat)
    ensures
        vecs_payload(bytes, count).len() == count * word_at(bytes, 0),
        forall|i: int|
            0 <= i < count ==> #[trigger] row_of(vecs_payload(bytes, count), word_at(bytes, 0) as int, i) == vecs_row(
                bytes,
                i,
            ),
    decreases count,
{
    let dim = word_at(bytes, 0) as int;
    if count > 0 {
        let p = vecs_payload(bytes, (count - 1) as nat);
        let q = vecs_payload(bytes, count);
        lemma_payload_rows(bytes, (count - 1) as nat);
        lemma_row_bounds(count - 1, dim, count as int);
        assert forall|i: int| 0 <= i < count implies #[trigger] row_of(q, dim, i) == vecs_row(bytes, i) by {
            lemma_row_bounds(i, dim, count as int);
            if i < count - 1 {
                lemma_row_bounds(i, dim, count - 1);
                assert(row_of(q, dim, i) =~= row_of(p, dim, i));
            } else {
                assert(row_of(q, dim, i) =~= vecs_row(bytes, i));
            }
        }
    }
}

/// Dimension and record count of a vector file, by its size and its first
/// dimension.
pub fn record_layout(bytes: &[u8]) -> (r: Result<(usize, usize), VecsError>)
    ensures
        match layout_error(bytes@) {
            Some(e) => r == Err::<(usize, usize), VecsError>(e),
            None => r is Ok && r->Ok_0.0 == word_at(bytes@, 0) && r->Ok_0.1 == vecs_count(bytes@),
        },
{
    if bytes.len() < 4 {
        return Err(VecsError::TooSmall);
    }
    let dim: u32 = read_u32(bytes, 0);
    if dim == 0 || dim > 65536 {
        return Err(VecsError::ImplausibleDimension { dim });
    }
    let rec: usize = 4 + (dim as usize) * 4;
    if bytes.len() % rec != 0 {
        return Err(VecsError::SizeMismatch { size: bytes.len(), record: rec });
    }
    Ok((dim as usize, bytes.len() / rec))
}

/// Dimension, record count and elements of a vector file.
pub fn parse_records(bytes: &[u8]) -> (r: Result<(usize, usize, Vec<u32>), VecsError>)
    ensures
        match vecs_error(bytes@) {
            Some(e) => r == Err::<(usize, usize, Vec<u32>), VecsError>(e),
            None => r is Ok && r->Ok_0.0 == word_at(bytes@, 0) && r->Ok_0.1 == vecs_count(bytes@) && r->Ok_0.2@
                == vecs_payload(bytes@, vecs_count(bytes@) as nat),
        },
{
    let (dim, count): (usize, usize) = match record_layout(bytes) {
        Ok(shape) => shape,
        Err(e) => {
            return Err(e);
        },
    };
    let rec: usize = 4 + dim * 4;
    assert(bytes@.len() == bytes.len());
    proof {
        lemma_fundamental_div_mod(bytes@.len() as int, rec as int);
        assert(count * rec == rec * count) by (nonlinear_arith);
    }
    let mut data: Vec<u32> = Vec::with_capacity(bytes.len() / 4);
    let mut i: usize = 0;
    while i < count
        invariant
            i <= count,
            rec == record_len(dim as int),
            dim == word_at(bytes@, 0),
            count == vecs_count(bytes@),
            count * rec == bytes@.len(),
            bytes@.len() <= usize::MAX,
            layout_error(bytes@) is None,
            odd_record(bytes@, dim as int, i as int, count as int) == odd_record(bytes@, dim as int, 0, count as int),
            data@ == vecs_payload(bytes@, i as nat),
        decreases count - i,
    {
        proof {
            lemma_row_bounds(i as int, rec as int, count as int);
        }
        let off: usize = i * rec;
        let d: u32 = read_u32(bytes, off);
        if d as usize != dim {
            return Err(VecsError::RecordDimension { record: i, dim: d, expected: dim as u32 });
        }
        let mut row = read_words(bytes, off + 4, dim);
        data.append(&mut row);
        i += 1;
    }
    Ok((dim, count, data))
}

/// Decodes the content of an `.fvecs` file.
pub fn read_fvecs(bytes: &[u8]) -> (r: Result<FloatVectors, VecsError>)
    ensures
        match vecs_error(bytes@) {
            Some(e) => r is Err && r->Err_0 == e,
            None => r is Ok && r->Ok_0.wf() && r->Ok_0.dim == word_at(bytes@, 0) && r->Ok_0.count == vecs_count(
                bytes@,
            ) && forall|i: int| 0 <= i < r->Ok_0.count ==> #[trigger] r->Ok_0.row(i) == vecs_row(bytes@, i),
        },
{
    match parse_records(bytes) {
        Ok((dim, count, data)) => {
            proof {
                lemma_payload_rows(bytes@, count as nat);
                assert(data@.len() == data.len());
            }
            Ok(FloatVectors { dim, count, data })
        },
        Err(e) => Err(e),
    }
}

/// Decodes the content of an `.ivecs` file.
pub fn read_ivecs(bytes: &[u8]) -> (r: Result<IdLists, VecsError>)
    ensures
        match vecs_error(bytes@) {
            Some(e) => r is Err && r->Err_0 == e,
            None => r is Ok && r->Ok_0.wf() && r->Ok_0.dim == word_at(bytes@, 0) && r->Ok_0.count == vecs_count(
                bytes@,
            ) && forall|i: int| 0 <= i < r->Ok_0.count ==> #[trigger] r->Ok_0.row(i) == vecs_row(bytes@, i),
        },
{
    match parse_records(bytes) {
        Ok((dim, count, data)) => {
            proof {
                lemma_payload_rows(bytes@, count as nat);
                assert(data@.len() == data.len());
            }
            Ok(IdLists { dim, count, data })
        },
        Err(e) => Err(e),
    }
}

/// The bytes of one record.
pub open spec fn record_bytes(row: Seq<u32>) -> Seq<u8> {
    le32(row.len() as u32) + le_words(row)
}

/// A file that was written record by record, all of one plausible dimension,
/// reads back as the rows that were written.
pub proof fn law_vecs_roundtrip(rows: Seq<Seq<u32>>, dim: int, bytes: Seq<u8>)
    requires
        rows.len() > 0,
        0 < dim <= 65536,
        forall|i: int| 0 <= i < rows.len() ==> (#[trigger] rows[i]).len() == dim,
        bytes.len() == rows.len() * record_len(dim),
        forall|i: int|
            0 <= i < rows.len() ==> bytes.subrange(i * record_len(dim), (i + 1) * record_len(dim)) == record_bytes(
                #[trigger] rows[i],
            ),
    ensures
        vecs_error(bytes) is None,
        word_at(bytes, 0) == dim,
        vecs_count(bytes) == rows.len(),
        forall|i: int| 0 <= i < rows.len() ==> #[trigger] vecs_row(bytes, i) == rows[i],
{
    let rec = record_len(dim);
    let n = rows.len() as int;
    assert forall|i: int| 0 <= i < n implies word_at(bytes, i * rec) == dim && words_at(
        bytes,
        i * rec + 4,
        dim as nat,
    ) == #[trigger] rows[i] by {
        lemma_row_bounds(i, rec, n);
        let part = bytes.subrange(i * rec, (i + 1) * rec);
        assert(part == record_bytes(rows[i]));
        assert(bytes.subrange(i * rec, i * rec + 4) =~= part.subrange(0, 4));
        assert(record_bytes(rows[i]).subrange(0, 4) =~= le32(dim as u32));
        law_word_roundtrip(dim as u32, bytes, i * rec);
        assert(bytes.subrange(i * rec + 4, i * rec + 4 + 4 * dim) =~= part.subrange(4, rec));
        assert(record_bytes(rows[i]).subrange(4, rec) =~= le_words(rows[i]));
        law_words_roundtrip(rows[i], bytes, i * rec + 4);
    }
    assert(rows[0].len() == dim);
    assert(word_at(bytes, 0 * rec) == dim);
    lemma_row_bounds(0, rec, n);
    lemma_fundamental_div_mod_converse(bytes.len() as int, rec, n, 0);
    assert forall|i: int| 0 <= i < n implies word_at(bytes, #[trigger] (i * record_len(dim))) == dim by {
        assert(rows[i].len() == dim);
    }
    lemma_no_odd_record(bytes, dim, 0, n);
}

proof fn lemma_no_odd_record(bytes: Seq<u8>, dim: int, from: int, count: int)
    requires
        0 <= from,
        forall|i: int| from <= i < count ==> word_at(bytes, #[trigger] (i * record_len(dim))) == dim,
    ensures
        odd_record(bytes, dim, from, count) is None,
    decreases count - from,
{
    if from < count {
        assert(word_at(bytes, from * record_len(dim)) == dim);
        lemma_no_odd_record(bytes, dim, from + 1, count);
    }
}

/// A TEXMEX-style dataset: base vectors, query vectors, and the true
/// neighbors of every query.
pub struct BenchDataset {
    pub base: FloatVectors,
    pub queries: FloatVectors,
    pub ground_truth: IdLists,
}

/// Why three files are not one dataset.
#[derive(Debug, Clone, Copy, PartialEq, Eq)]
pub enum DatasetError {
    DimensionMismatch { base: usize, queries: usize },
    CountMismatch { ground_truth: usize, queries: usize },
}

/// Puts the three files of a dataset together: base and queries share a
/// dimension, and every query has a list of true neighbors.
pub fn load_texmex(base: FloatVectors, queries: FloatVectors, ground_truth: IdLists) -> (r: Result<
    BenchDataset,
    DatasetError,
>)
    ensures
        base.dim != queries.dim ==> r == Err::<BenchDataset, DatasetError>(
            DatasetError::DimensionMismatch { base: base.dim, queries: queries.dim },
        ),
        base.dim == queries.dim && ground_truth.count != queries.count ==> r == Err::<BenchDataset, DatasetError>(
            DatasetError::CountMismatch { ground_truth: ground_truth.count, queries: queries.count },
        ),
        base.dim == queries.dim && ground_truth.count == queries.count ==> r == Ok::<BenchDataset, DatasetError>(
            BenchDataset { base, queries, ground_truth },
        ),
{
    if base.dim != queries.dim {
        return Err(DatasetError::DimensionMismatch { base: base.dim, queries: queries.dim });
    }
    if ground_truth.count != queries.count {
        return Err(DatasetError::CountMismatch { ground_truth: ground_truth.count, queries: queries.count });
    }
    Ok(BenchDataset { base, queries, ground_truth })
}

/// Element `j` of row `i` stands `i` rows and `j` elements into the data.
pub proof fn law_rows_stand_one_after_the_other(v: FloatVectors, g: IdLists, i: int, j: int)
    ensures
        v.wf() && 0 <= i < v.count ==> v.row(i).len() == v.dim,
        v.wf() && 0 <= i < v.count && 0 <= j < v.dim ==> v.row(i)[j] == v.data@[i * v.dim + j],
        g.wf() && 0 <= i < g.count ==> g.row(i).len() == g.dim,
        g.wf() && 0 <= i < g.count && 0 <= j < g.dim ==> g.row(i)[j] == g.data@[i * g.dim + j],
{
    if v.wf() && 0 <= i < v.count {
        lemma_row_bounds(i, v.dim as int, v.count as int);
    }
    if g.wf() && 0 <= i < g.count {
        lemma_row_bounds(i, g.dim as int, g.count as int);
    }
}

/// A vector file is refused for the first of these reasons: it is too short
/// for a dimension; the first dimension is 0 or beyond 65536; its size is no
/// multiple of the record size; or a record has another dimension, and the
/// error names the first one. Any other file is accepted.
pub proof fn law_vector_file_refusals(bytes: Seq<u8>)
    requires
        bytes.len() <= usize::MAX,
    ensures
        ({
            let e = vecs_error(bytes);
            let dim = word_at(bytes, 0);
            let rec = 4 + 4 * dim as int;
            let count = bytes.len() as int / rec;
            &&& bytes.len() < 4 <==> e == Some(VecsError::TooSmall)
            &&& bytes.len() >= 4 && (dim == 0 || dim > 65536) <==> e is Some && e->Some_0 is ImplausibleDimension
            &&& e is Some && e->Some_0 is ImplausibleDimension ==> e == Some(VecsError::ImplausibleDimension { dim })
            &&& bytes.len() >= 4 && 0 < dim <= 65536 && bytes.len() % (rec as nat) != 0 <==> e is Some
                && e->Some_0 is SizeMismatch
            &&& e is Some && e->Some_0 is SizeMismatch ==> e == Some(
                VecsError::SizeMismatch { size: bytes.len() as usize, record: rec as usize },
            )
            &&& e matches Some(VecsError::RecordDimension { record, dim: found, expected }) ==> {
                &&& record < count
                &&& found == word_at(bytes, record * rec)
                &&& expected == dim
                &&& found != dim
                &&& forall|i: int| 0 <= i < record ==> word_at(bytes, #[trigger] (i * rec)) == dim
            }
            &&& e is None ==> {
                &&& bytes.len() == count * rec
                &&& forall|i: int| 0 <= i < count ==> word_at(bytes, #[trigger] (i * rec)) == dim
                &&& vecs_count(bytes) == count
            }
        }),
{
    let dim = word_at(bytes, 0) as int;
    let rec = record_len(dim);
    let count = bytes.len() as int / rec;
    if layout_error(bytes) is None {
        lemma_fundamental_div_mod(bytes.len() as int, rec);
        assert(rec * count == count * rec) by (nonlinear_arith);
        assert(0 <= count <= bytes.len()) by (nonlinear_arith)
            requires
                count * rec == bytes.len(),
                rec >= 1,
        ;
        lemma_odd_record_is_first(bytes, dim, 0, count);
    }
}

proof fn lemma_odd_record_is_first(bytes: Seq<u8>, dim: int, from: int, count: int)
    requires
        0 <= from <= count,
    ensures
        match odd_record(bytes, dim, from, count) {
            Some(r) => from <= r < count && word_at(bytes, r * record_len(dim)) != dim && forall|i: int|
                from <= i < r ==> word_at(bytes, #[trigger] (i * record_len(dim))) == dim,
            None => forall|i: int| from <= i < count ==> word_at(bytes, #[trigger] (i * record_len(dim))) == dim,
        },
    decreases count - from,
{
    if from < count && word_at(bytes, from * record_len(dim)) == dim {
        lemma_odd_record_is_first(bytes, dim, from + 1, count);
    }
}

/// Element `j` of record `i` stands behind the records before it, the record's
/// own dimension and the elements before it; and all elements are read, record
/// by record.
pub proof fn law_records_are_read_in_place(bytes: Seq<u8>, count: nat, i: int, j: int)
    requires
        0 <= i < count,
        0 <= j < word_at(bytes, 0),
    ensures
        ({
            let dim = word_at(bytes, 0) as int;
            &&& vecs_row(bytes, i).len() == dim
            &&& vecs_row(bytes, i)[j] == word_at(bytes, i * (4 + 4 * dim) + 4 + 4 * j)
            &&& vecs_payload(bytes, count).len() == count * dim
            &&& vecs_payload(bytes, count)[i * dim + j] == word_at(bytes, i * (4 + 4 * dim) + 4 + 4 * j)
        }),
{
    let dim = word_at(bytes, 0) as int;
    lemma_payload_rows(bytes, count);
    lemma_row_bounds(i, dim, count as int);
    assert(row_of(vecs_payload(bytes, count), dim, i) == vecs_row(bytes, i));
    assert(row_of(vecs_payload(bytes, count), dim, i)[j] == vecs_payload(bytes, count)[i * dim + j]);
}

} // verus!
