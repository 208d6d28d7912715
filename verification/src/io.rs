//! Block-granular storage I/O abstraction.
//!
//! The disk index reads fixed 4 KiB blocks. Everything above this layer talks
//! in `block_id`s and stays byte-identical across backends, which all
//! implement [`BlockReader`]. What a backend decides without touching a file
//! is here too: how many blocks a file has, which requests it refuses, how a
//! batch is split over a ring, and what its completions mean.
//!
//! The batched call is the contract that matters: callers batch all reads of
//! one beam-search hop into a single `read_batch` so an asynchronous backend
//! can keep the device queue deep.

use vstd::arithmetic::div_mod::{lemma_fundamental_div_mod, lemma_fundamental_div_mod_converse};
use vstd::arithmetic::mul::{lemma_mul_inequality, lemma_mul_is_commutative, lemma_mul_is_distributive_add_other_way};
use vstd::prelude::*;

use crate::select::lemma_subset_len;

verus! {

/// Block size in bytes. 4 KiB matches both NVMe atomic read granularity and
/// the node layout (vector + neighbor list packed in one block).
pub const BLOCK_SIZE: usize = 4096;

/// One block-read request: fill `buf` (exactly [`BLOCK_SIZE`]) from `block_id`.
pub struct BlockRead {
    pub block_id: u64,
    pub buf: Vec<u8>,
}

/// A request can be served: its buffer holds one block, and the block exists.
pub open spec fn servable(buf_len: nat, block_id: u64, num_blocks: u64) -> bool {
    buf_len == BLOCK_SIZE && block_id < num_blocks
}

/// A batch was read no further than request `i`: the buffers behind it are as
/// they were.
pub open spec fn stops_at(before: Seq<BlockRead>, after: Seq<BlockRead>, i: int) -> bool {
    &&& 0 <= i < before.len()
    &&& before.len() == after.len()
    &&& forall|j: int| i < j < before.len() ==> (#[trigger] after[j]).buf@ == before[j].buf@
}

/// A source of blocks.
pub trait BlockReader: Send + Sync {
    type Error;

    /// `bytes` is what a successful read of the block may give. Another
    /// process may write to the file, so there can be several.
    open spec fn reads(&self, block_id: u64, bytes: Seq<u8>) -> bool {
        true
    }

    /// `e` is how a read of the block may fail, alone or in a batch.
    open spec fn fails(&self, block_id: u64, e: Self::Error) -> bool {
        true
    }

    /// The number that [`BlockReader::num_blocks`] gives.
    open spec fn block_total(&self) -> u64 {
        arbitrary()
    }

    fn num_blocks(&self) -> (n: u64)
        ensures
            n == self.block_total(),
    ;

    /// Fills `buf` from a block. Only a whole block that exists can be read.
    fn read_block(&self, block_id: u64, buf: &mut [u8]) -> (r: Result<(), Self::Error>)
        ensures
            final(buf)@.len() == old(buf)@.len(),
            r is Ok ==> servable(old(buf)@.len(), block_id, self.block_total()) && self.reads(block_id, final(buf)@),
            r matches Err(e) ==> self.fails(block_id, e),
    ;

    /// Read a batch of blocks. Backends may reorder and parallelize; there is
    /// no ordering guarantee between requests in one batch. Without a method
    /// of its own a backend reads one block after the other, and stops at the
    /// first request that fails.
    fn read_batch(&self, batch: &mut Vec<BlockRead>) -> (r: Result<(), Self::Error>)
        ensures
            final(batch)@.len() == old(batch)@.len(),
            forall|i: int|
                0 <= i < old(batch)@.len() ==> (#[trigger] final(batch)@[i]).block_id == old(batch)@[i].block_id
                    && final(batch)@[i].buf@.len() == old(batch)@[i].buf@.len(),
            r is Ok ==> forall|i: int|
                #![trigger old(batch)@[i]]
                #![trigger final(batch)@[i]]
                0 <= i < old(batch)@.len() ==> servable(
                    old(batch)@[i].buf@.len(),
                    old(batch)@[i].block_id,
                    self.block_total(),
                ) && self.reads(old(batch)@[i].block_id, final(batch)@[i].buf@),
            r matches Err(e) ==> exists|i: int|
                0 <= i < old(batch)@.len() && self.fails((#[trigger] old(batch)@[i]).block_id, e),
        default_ensures
            r matches Err(e) ==> exists|i: int|
                #[trigger] stops_at(old(batch)@, final(batch)@, i) && self.fails(old(batch)@[i].block_id, e) && forall|
                    j: int,
                |
                    #![trigger old(batch)@[j]]
                    #![trigger final(batch)@[j]]
                    0 <= j < i ==> servable(
                        old(batch)@[j].buf@.len(),
                        old(batch)@[j].block_id,
                        self.block_total(),
                    ) && self.reads(old(batch)@[j].block_id, final(batch)@[j].buf@),
    {
        let ghost before = batch@;
        let mut i: usize = 0;
        while i < batch.len()
            invariant
                before == old(batch)@,
                i <= batch@.len(),
                batch@.len() == before.len(),
                forall|j: int|
                    0 <= j < before.len() ==> (#[trigger] batch@[j]).block_id == before[j].block_id
                        && batch@[j].buf@.len() == before[j].buf@.len(),
                forall|j: int|
                    #![trigger before[j]]
                    #![trigger batch@[j]]
                    0 <= j < i ==> servable(before[j].buf@.len(), before[j].block_id, self.block_total())
                        && self.reads(before[j].block_id, batch@[j].buf@),
                forall|j: int| i <= j < before.len() ==> (#[trigger] batch@[j]).buf@ == before[j].buf@,
            decreases batch@.len() - i,
        {
            let id: u64 = batch[i].block_id;
            let r = self.read_block(id, batch[i].buf.as_mut_slice());
            match r {
                Ok(_) => {},
                Err(e) => {
                    assert(self.fails(before[i as int].block_id, e));
                    assert(stops_at(before, batch@, i as int));
                    return Err(e);
                },
            }
            i += 1;
        }
        Ok(())
    }
}

impl<T: BlockReader + ?Sized> BlockReader for Box<T> {
    type Error = T::Error;

    open spec fn reads(&self, block_id: u64, bytes: Seq<u8>) -> bool {
        (**self).reads(block_id, bytes)
    }

    open spec fn fails(&self, block_id: u64, e: Self::Error) -> bool {
        (**self).fails(block_id, e)
    }

    open spec fn block_total(&self) -> u64 {
        (**self).block_total()
    }

    fn num_blocks(&self) -> (n: u64) {
        (**self).num_blocks()
    }

    fn read_block(&self, block_id: u64, buf: &mut [u8]) -> (r: Result<(), Self::Error>) {
        (**self).read_block(block_id, buf)
    }

    fn read_batch(&self, batch: &mut Vec<BlockRead>) -> (r: Result<(), Self::Error>) {
        (**self).read_batch(batch)
    }
}

/// Why a backend refuses a file or a request.
#[derive(Debug, Clone, Copy, PartialEq, Eq)]
pub enum RequestError {
    /// A file whose size is no multiple of the block size.
    UnalignedFile { size: u64 },
    /// A buffer that does not hold exactly one block.
    BufferLength { len: usize },
    /// A block past the end.
    OutOfRange { block_id: u64, num_blocks: u64 },
}

/// How many blocks a file of `len` bytes has.
pub fn block_count(len: u64) -> (r: Result<u64, RequestError>)
    ensures
        len % 4096 == 0 ==> r == Ok::<u64, RequestError>((len / 4096) as u64),
        len % 4096 != 0 ==> r == Err::<u64, RequestError>(RequestError::UnalignedFile { size: len }),
{
    if len % (BLOCK_SIZE as u64) != 0 {
        Err(RequestError::UnalignedFile { size: len })
    } else {
        Ok(len / (BLOCK_SIZE as u64))
    }
}

/// Where in the file a block starts, if a request for it can be served.
pub fn validate(buf_len: usize, block_id: u64, num_blocks: u64) -> (r: Result<u64, RequestError>)
    requires
        num_blocks * 4096 <= u64::MAX,
    ensures
        buf_len != BLOCK_SIZE ==> r == Err::<u64, RequestError>(RequestError::BufferLength { len: buf_len }),
        buf_len == BLOCK_SIZE && block_id >= num_blocks ==> r == Err::<u64, RequestError>(
            RequestError::OutOfRange { block_id, num_blocks },
        ),
        servable(buf_len as nat, block_id, num_blocks) ==> r == Ok::<u64, RequestError>((block_id * 4096) as u64),
{
    if buf_len != BLOCK_SIZE {
        return Err(RequestError::BufferLength { len: buf_len });
    }
    if block_id >= num_blocks {
        return Err(RequestError::OutOfRange { block_id, num_blocks });
    }
    Ok(block_id * (BLOCK_SIZE as u64))
}

/// How an io_uring backend is opened.
#[derive(Clone, Copy)]
pub struct UringOpts {
    /// Ring size; batches larger than this are split.
    pub queue_depth: u32,
    /// Open with O_DIRECT (bypass page cache — honest device numbers).
    pub direct: bool,
}

impl Default for UringOpts {
    fn default() -> (o: Self)
        ensures
            o == (UringOpts { queue_depth: 128, direct: false }),
    {
        UringOpts { queue_depth: 128, direct: false }
    }
}

/// Chunk `i` of a batch of `len` requests over a ring of `depth` entries, as
/// its start and its end.
pub open spec fn chunk(len: int, depth: int, i: int) -> (int, int) {
    (i * depth, if (i + 1) * depth < len { (i + 1) * depth } else { len })
}

/// How many chunks there are.
pub open spec fn chunk_total(len: int, depth: int) -> int {
    (len + depth - 1) / depth
}

/// Splits a batch over a ring: full chunks, and what is left at the end.
pub fn plan_chunks(len: usize, depth: usize) -> (chunks: Vec<(usize, usize)>)
    requires
        depth > 0,
    ensures
        chunks@.len() == chunk_total(len as int, depth as int),
        forall|i: int|
            0 <= i < chunks@.len() ==> (#[trigger] chunks@[i]).0 == chunk(len as int, depth as int, i).0
                && chunks@[i].1 == chunk(len as int, depth as int, i).1,
{
    let mut chunks: Vec<(usize, usize)> = Vec::new();
    let mut start: usize = 0;
    proof {
        lemma_chunk_total(len as int, depth as int, 0);
    }
    while start < len
        invariant
            depth > 0,
            start <= len,
            start == (if chunks@.len() * depth < len { chunks@.len() * depth } else { len as int }),
            start < len ==> chunks@.len() < chunk_total(len as int, depth as int),
            start == len ==> chunks@.len() == chunk_total(len as int, depth as int),
            forall|i: int|
                0 <= i < chunks@.len() ==> (#[trigger] chunks@[i]).0 == chunk(len as int, depth as int, i).0
                    && chunks@[i].1 == chunk(len as int, depth as int, i).1,
        decreases len - start,
    {
        let end: usize = if depth < len - start { start + depth } else { len };
        let ghost n = chunks@.len() as int;
        proof {
            lemma_mul_is_distributive_add_other_way(depth as int, n, 1);
            lemma_chunk_total(len as int, depth as int, n + 1);
        }
        chunks.push((start, end));
        start = end;
    }
    chunks
}

/// `n` chunks are too few exactly where they do not reach the end.
pub proof fn lemma_chunk_total(len: int, depth: int, n: int)
    requires
        depth > 0,
        0 <= len,
        0 <= n,
    ensures
        n < chunk_total(len, depth) <==> n * depth < len,
{
    let t = chunk_total(len, depth);
    lemma_fundamental_div_mod(len + depth - 1, depth);
    lemma_mul_is_commutative(depth, t);
    if n < t {
        lemma_mul_inequality(n + 1, t, depth);
        lemma_mul_is_distributive_add_other_way(depth, n, 1);
    } else {
        lemma_mul_inequality(t, n, depth);
    }
}

/// The chunks cut the batch into consecutive pieces: every request lies in
/// exactly one of them, and none of them exceeds the ring.
pub proof fn law_chunks_cover(len: int, depth: int, j: int)
    requires
        depth > 0,
        0 <= j < len,
    ensures
        0 <= j / depth < chunk_total(len, depth),
        chunk(len, depth, j / depth).0 <= j < chunk(len, depth, j / depth).1,
        chunk(len, depth, j / depth).1 - chunk(len, depth, j / depth).0 <= depth,
        forall|i: int|
            0 <= i < chunk_total(len, depth) && (#[trigger] chunk(len, depth, i)).0 <= j < chunk(len, depth, i).1 ==> i
                == j / depth,
{
    let i = j / depth;
    lemma_fundamental_div_mod(j, depth);
    lemma_mul_is_commutative(depth, i);
    lemma_mul_is_distributive_add_other_way(depth, i, 1);
    assert(i >= 0) by (nonlinear_arith)
        requires
            i * depth + j % depth == j,
            0 <= j,
            j % depth < depth,
            depth > 0,
    ;
    lemma_chunk_total(len, depth, i);
    assert forall|k: int|
        0 <= k < chunk_total(len, depth) && (#[trigger] chunk(len, depth, k)).0 <= j < chunk(len, depth, k).1 implies k
        == i by {
        lemma_mul_is_distributive_add_other_way(depth, k, 1);
        lemma_mul_is_commutative(depth, k);
        lemma_fundamental_div_mod_converse(j, depth, k, j - k * depth);
    }
}

/// Why a chunk of reads failed.
#[derive(Debug, Clone, Copy, PartialEq, Eq)]
pub enum ReadFault {
    /// Not as many completions as requests.
    Completions { expected: usize, reaped: usize },
    /// The system refused the read, with this error number.
    Os { code: u32 },
    /// Fewer bytes than a block.
    ShortRead { bytes: u32 },
}

/// What is wrong with one completion's result.
pub open spec fn result_fault(result: i32) -> Option<ReadFault> {
    if result < 0 {
        Some(ReadFault::Os { code: (-result) as u32 })
    } else if result != 4096 {
        Some(ReadFault::ShortRead { bytes: result as u32 })
    } else {
        None
    }
}

/// What is wrong with the first faulty completion.
pub open spec fn first_fault(completions: Seq<(u64, i32)>) -> Option<ReadFault>
    decreases completions.len(),
{
    if completions.len() == 0 {
        None
    } else {
        match first_fault(completions.drop_last()) {
            Some(f) => Some(f),
            None => result_fault(completions.last().1),
        }
    }
}

/// The outcome of a chunk of `expected` reads, given for each completion the
/// number of its request and its result.
pub fn check_completions(expected: usize, completions: &[(u64, i32)]) -> (r: Result<(), ReadFault>)
    ensures
        completions@.len() != expected ==> r == Err::<(), ReadFault>(
            ReadFault::Completions { expected, reaped: completions@.len() as usize },
        ),
        completions@.len() == expected ==> match first_fault(completions@) {
            Some(f) => r == Err::<(), ReadFault>(f),
            None => r is Ok,
        },
{
    assert(completions@.len() == completions.len());
    if completions.len() != expected {
        return Err(ReadFault::Completions { expected, reaped: completions.len() });
    }
    let mut i: usize = 0;
    assert(completions@.take(0) =~= Seq::empty());
    while i < completions.len()
        invariant
            i <= completions@.len(),
            completions@.len() == expected,
            first_fault(completions@.take(i as int)) is None,
        decreases completions@.len() - i,
    {
        proof {
            assert(completions@.take(i + 1).drop_last() =~= completions@.take(i as int));
            assert(completions@.take(i + 1).last() == completions@[i as int]);
            lemma_first_fault_stays(completions@, i + 1);
        }
        let result: i32 = completions[i].1;
        if result < 0 {
            return Err(ReadFault::Os { code: (0i64 - result as i64) as u32 });
        }
        if result as usize != BLOCK_SIZE {
            return Err(ReadFault::ShortRead { bytes: result as u32 });
        }
        i += 1;
    }
    assert(completions@.take(i as int) =~= completions@);
    Ok(())
}

/// A fault among the first completions is the first fault of all.
pub proof fn lemma_first_fault_stays(completions: Seq<(u64, i32)>, i: int)
    requires
        0 <= i <= completions.len(),
    ensures
        first_fault(completions.take(i)) is Some ==> first_fault(completions) == first_fault(completions.take(i)),
    decreases completions.len(),
{
    if i == completions.len() {
        assert(completions.take(i) =~= completions);
    } else {
        lemma_first_fault_stays(completions.drop_last(), i);
        assert(completions.drop_last().take(i) =~= completions.take(i));
    }
}

/// Where as many completions came back as requests went out, each naming
/// another request, no request is left without its block.
pub proof fn law_every_request_completes(expected: nat, completions: Seq<(u64, i32)>, slot: int)
    requires
        completions.len() == expected,
        forall|i: int| 0 <= i < completions.len() ==> (#[trigger] completions[i]).0 < expected,
        forall|i: int, j: int|
            0 <= i < j < completions.len() ==> (#[trigger] completions[i]).0 != (#[trigger] completions[j]).0,
        0 <= slot < expected,
    ensures
        exists|i: int| 0 <= i < completions.len() && (#[trigger] completions[i]).0 == slot,
{
    let named = Seq::new(completions.len(), |i: int| completions[i].0 as int);
    let all = Seq::new(expected, |i: int| i);
    assert(named.no_duplicates()) by {
        assert forall|i: int, j: int| 0 <= i < named.len() && 0 <= j < named.len() && i != j implies named[i]
            != named[j] by {
            if i < j {
                assert(completions[i].0 != completions[j].0);
            } else {
                assert(completions[j].0 != completions[i].0);
            }
        }
    }
    assert forall|i: int| 0 <= i < named.len() implies all.contains(#[trigger] named[i]) by {
        assert(completions[i].0 < expected);
        assert(all[named[i]] == named[i]);
    }
    lemma_subset_len(named, all);
    assert(named.contains(all[slot]));
    let i = choose|i: int| 0 <= i < named.len() && named[i] == slot;
    assert(completions[i].0 == slot);
}

/// The outcome of a chunk goes by the first completion that did not bring a
/// whole block: a negative result is an error of the system, any other a short
/// read. Where every completion brought a block, nothing is wrong.
pub proof fn law_first_bad_completion_decides(completions: Seq<(u64, i32)>)
    ensures
        match first_fault(completions) {
            None => forall|i: int| 0 <= i < completions.len() ==> (#[trigger] completions[i]).1 == 4096,
            Some(f) => exists|i: int|
                0 <= i < completions.len() && (#[trigger] completions[i]).1 != 4096 && (forall|j: int|
                    0 <= j < i ==> (#[trigger] completions[j]).1 == 4096) && (completions[i].1 < 0 ==> f
                    == (ReadFault::Os { code: (-completions[i].1) as u32 })) && (completions[i].1 >= 0 ==> f
                    == (ReadFault::ShortRead { bytes: completions[i].1 as u32 })),
        },
    decreases completions.len(),
{
    if completions.len() > 0 {
        let init = completions.drop_last();
        let last = completions.len() - 1;
        law_first_bad_completion_decides(init);
        match first_fault(init) {
            Some(f) => {
                let i = choose|i: int|
                    0 <= i < init.len() && (#[trigger] init[i]).1 != 4096 && (forall|j: int|
                        0 <= j < i ==> (#[trigger] init[j]).1 == 4096) && (init[i].1 < 0 ==> f == (ReadFault::Os {
                        code: (-init[i].1) as u32,
                    })) && (init[i].1 >= 0 ==> f == (ReadFault::ShortRead { bytes: init[i].1 as u32 }));
                assert forall|j: int| 0 <= j < i implies (#[trigger] completions[j]).1 == 4096 by {
                    assert(init[j].1 == 4096);
                }
                assert(completions[i].1 != 4096);
            },
            None => {
                assert forall|j: int| 0 <= j < last implies (#[trigger] completions[j]).1 == 4096 by {
                    assert(init[j].1 == 4096);
                }
                assert(completions[last] == completions.last());
            },
        }
    }
}

/// The chunks follow each other without gaps, from the first request to the
/// last; all but the last are as long as the ring is deep.
pub proof fn law_chunks_follow_each_other(len: int, depth: int, i: int)
    requires
        depth > 0,
        0 <= len,
        0 <= i < chunk_total(len, depth),
    ensures
        i == 0 ==> chunk(len, depth, i).0 == 0,
        chunk(len, depth, i).0 < chunk(len, depth, i).1,
        i + 1 < chunk_total(len, depth) ==> chunk(len, depth, i).1 == chunk(len, depth, i + 1).0 && chunk(
            len,
            depth,
            i,
        ).1 - chunk(len, depth, i).0 == depth,
        i + 1 == chunk_total(len, depth) ==> chunk(len, depth, i).1 == len,
{
    lemma_chunk_total(len, depth, i);
    lemma_chunk_total(len, depth, i + 1);
    lemma_mul_is_distributive_add_other_way(depth, i, 1);
    assert(0 * depth == 0);
}

/// An empty batch has no chunks.
pub proof fn law_nothing_has_no_chunks(depth: int)
    requires
        depth > 0,
    ensures
        chunk_total(0, depth) == 0,
{
    lemma_chunk_total(0, depth, 0);
    lemma_fundamental_div_mod(depth - 1, depth);
    lemma_fundamental_div_mod_converse(depth - 1, depth, 0, depth - 1);
}

/// A reader in a box reads, fails and counts its blocks as the reader itself.
pub proof fn law_boxed_readers_are_their_readers<T: BlockReader>(reader: Box<T>, id: u64, bytes: Seq<u8>, e: T::Error)
    ensures
        reader.reads(id, bytes) == (*reader).reads(id, bytes),
        reader.fails(id, e) == (*reader).fails(id, e),
        reader.block_total() == (*reader).block_total(),
{
}

/// A read is served if its buffer holds exactly one block, and the block lies
/// before the end.
pub proof fn law_whole_blocks_before_the_end_are_served(buf_len: nat, id: u64, num_blocks: u64)
    ensures
        servable(buf_len, id, num_blocks) <==> buf_len == 4096 && id < num_blocks,
{
}

/// A batch that stops at a request leaves the buffers behind it as they were.
pub proof fn law_stopped_batches_leave_the_rest(before: Seq<BlockRead>, after: Seq<BlockRead>, i: int, j: int)
    requires
        stops_at(before, after, i),
    ensures
        0 <= i < before.len(),
        after.len() == before.len(),
        i < j < before.len() ==> after[j].buf@ == before[j].buf@,
{
    if i < j < before.len() {
        assert(after[j].buf@ == before[j].buf@);
    }
}

/// A file is counted in whole blocks, and refused if it is not made of them. A
/// request is served from where its block starts, and refused if its buffer is
/// no block, or its block lies past the end.
pub proof fn law_requests_start_at_their_blocks(
    len: u64,
    blocks: Result<u64, RequestError>,
    buf_len: usize,
    id: u64,
    num_blocks: u64,
    at: Result<u64, RequestError>,
)
    requires
        num_blocks * 4096 <= u64::MAX,
        call_ensures(block_count, (len,), blocks),
        call_ensures(validate, (buf_len, id, num_blocks), at),
    ensures
        blocks matches Ok(n) ==> n * 4096 == len,
        blocks is Err <==> len % 4096 != 0,
        at is Ok <==> buf_len == 4096 && id < num_blocks,
        at matches Ok(o) ==> o == id * 4096,
        buf_len != 4096 ==> at == Err::<u64, RequestError>(RequestError::BufferLength { len: buf_len }),
        buf_len == 4096 && id >= num_blocks ==> at == Err::<u64, RequestError>(
            RequestError::OutOfRange { block_id: id, num_blocks },
        ),
{
}

} // verus!
