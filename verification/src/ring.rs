//! A whole batch over a ring: every request is checked before any of them is
//! submitted, and each chunk's blocks go from the slots they landed in to the
//! requests they were read for.

use vstd::prelude::*;

use crate::io::{
    chunk, chunk_total, first_fault, law_chunks_cover, law_every_request_completes, lemma_first_fault_stays, result_fault,
    servable, validate, BlockRead, ReadFault, RequestError, BLOCK_SIZE,
};

verus! {

/// Why a request is refused.
pub open spec fn request_error(request: BlockRead, num_blocks: u64) -> Option<RequestError> {
    if request.buf@.len() != 4096 {
        Some(RequestError::BufferLength { len: request.buf@.len() as usize })
    } else if request.block_id >= num_blocks {
        Some(RequestError::OutOfRange { block_id: request.block_id, num_blocks })
    } else {
        None
    }
}

/// Why the first bad request from `from` on is refused.
pub open spec fn first_refusal(batch: Seq<BlockRead>, num_blocks: u64, from: int) -> Option<RequestError>
    decreases batch.len() - from,
{
    if from >= batch.len() {
        None
    } else if request_error(batch[from], num_blocks) is Some {
        request_error(batch[from], num_blocks)
    } else {
        first_refusal(batch, num_blocks, from + 1)
    }
}

/// Where in the file each block of a batch starts, if all requests can be
/// served.
pub fn validate_batch(batch: &Vec<BlockRead>, num_blocks: u64) -> (r: Result<Vec<u64>, RequestError>)
    requires
        num_blocks * 4096 <= u64::MAX,
    ensures
        match first_refusal(batch@, num_blocks, 0) {
            Some(e) => r is Err && r->Err_0 == e,
            None => {
                &&& r is Ok
                &&& r->Ok_0@.len() == batch@.len()
                &&& forall|i: int|
                    0 <= i < batch@.len() ==> #[trigger] r->Ok_0@[i] == batch@[i].block_id * 4096 && servable(
                        batch@[i].buf@.len(),
                        batch@[i].block_id,
                        num_blocks,
                    )
            },
        },
{
    let mut offsets: Vec<u64> = Vec::new();
    let mut i: usize = 0;
    while i < batch.len()
        invariant
            i <= batch@.len(),
            num_blocks * 4096 <= u64::MAX,
            first_refusal(batch@, num_blocks, 0) == first_refusal(batch@, num_blocks, i as int),
            offsets@.len() == i,
            forall|j: int|
                0 <= j < i ==> #[trigger] offsets@[j] == batch@[j].block_id * 4096 && servable(
                    batch@[j].buf@.len(),
                    batch@[j].block_id,
                    num_blocks,
                ),
        decreases batch@.len() - i,
    {
        let ghost request = batch@[i as int];
        let len: usize = batch[i].buf.len();
        match validate(len, batch[i].block_id, num_blocks) {
            Ok(offset) => {
                assert(request_error(request, num_blocks) is None);
                assert(servable(request.buf@.len(), request.block_id, num_blocks));
                assert(offset == request.block_id * 4096);
                offsets.push(offset);
            },
            Err(e) => {
                assert(request_error(request, num_blocks) == Some(e));
                return Err(e);
            },
        }
        i += 1;
    }
    Ok(offsets)
}

/// The block in a slot of the buffer pool.
pub open spec fn slot_block(pool: Seq<u8>, slot: int) -> Seq<u8> {
    pool.subrange(slot * 4096, slot * 4096 + 4096)
}

/// One of the completions names the slot.
pub open spec fn names_slot(completions: Seq<(u64, i32)>, slot: int) -> bool {
    exists|i: int| 0 <= i < completions.len() && (#[trigger] completions[i]).0 == slot
}

/// The chunk that starts at request `start` landed: every request whose slot
/// was named has the block of that slot, and nothing else changed.
pub open spec fn lands(
    before: Seq<BlockRead>,
    after: Seq<BlockRead>,
    start: int,
    pool: Seq<u8>,
    completions: Seq<(u64, i32)>,
) -> bool {
    &&& after.len() == before.len()
    &&& forall|j: int|
        #![trigger after[j]]
        0 <= j < before.len() ==> after[j].block_id == before[j].block_id && after[j].buf@ == (if names_slot(
            completions,
            j - start,
        ) {
            slot_block(pool, j - start)
        } else {
            before[j].buf@
        })
}

/// The first place from `i` on with a faulty completion.
pub open spec fn sound_until(completions: Seq<(u64, i32)>, i: int) -> int
    decreases completions.len() - i,
{
    if i >= completions.len() || result_fault(completions[i].1) is Some {
        i
    } else {
        sound_until(completions, i + 1)
    }
}

/// Takes in a chunk of `expected` reads: copies each block that landed from
/// its slot in `pool` to its request, up to the first completion that failed.
pub fn land_chunk(
    batch: &mut Vec<BlockRead>,
    start: usize,
    expected: usize,
    completions: &[(u64, i32)],
    pool: &[u8],
) -> (r: Result<(), ReadFault>)
    requires
        start + expected <= old(batch)@.len(),
        expected * 4096 <= pool@.len(),
        forall|i: int| 0 <= i < completions@.len() ==> (#[trigger] completions@[i]).0 < expected,
    ensures
        completions@.len() != expected ==> r == Err::<(), ReadFault>(
            ReadFault::Completions { expected, reaped: completions@.len() as usize },
        ) && final(batch)@ == old(batch)@,
        completions@.len() == expected ==> match first_fault(completions@) {
            Some(f) => r == Err::<(), ReadFault>(f) && lands(
                old(batch)@,
                final(batch)@,
                start as int,
                pool@,
                completions@.take(sound_until(completions@, 0)),
            ),
            None => r is Ok && lands(old(batch)@, final(batch)@, start as int, pool@, completions@),
        },
{
    let ghost before = batch@;
    assert(completions@.len() == completions.len() && pool@.len() == pool.len() && batch@.len() == batch.len());
    if completions.len() != expected {
        return Err(ReadFault::Completions { expected, reaped: completions.len() });
    }
    let mut i: usize = 0;
    assert(completions@.take(0) =~= Seq::empty());
    assert(lands(before, batch@, start as int, pool@, completions@.take(0)));
    while i < completions.len()
        invariant
            before == old(batch)@,
            i <= completions@.len(),
            completions@.len() == expected,
            start + expected <= before.len(),
            before.len() <= usize::MAX,
            expected * 4096 <= pool@.len() <= usize::MAX,
            forall|i: int| 0 <= i < completions@.len() ==> (#[trigger] completions@[i]).0 < expected,
            first_fault(completions@.take(i as int)) is None,
            sound_until(completions@, 0) == sound_until(completions@, i as int),
            lands(before, batch@, start as int, pool@, completions@.take(i as int)),
        decreases completions@.len() - i,
    {
        let ghost done = completions@.take(i as int);
        let ghost more = completions@.take(i + 1);
        proof {
            assert(more.drop_last() =~= done);
            assert(more.last() == completions@[i as int]);
            lemma_first_fault_stays(completions@, i + 1);
        }
        let result: i32 = completions[i].1;
        if result < 0 {
            return Err(ReadFault::Os { code: (0i64 - result as i64) as u32 });
        }
        if result as usize != BLOCK_SIZE {
            return Err(ReadFault::ShortRead { bytes: result as u32 });
        }
        assert(completions@[i as int].0 < expected);
        let slot: usize = completions[i].0 as usize;
        let ghost so_far = batch@;
        let block = vstd::slice::slice_subrange(pool, slot * BLOCK_SIZE, slot * BLOCK_SIZE + BLOCK_SIZE);
        let id: u64 = batch[start + slot].block_id;
        batch.set(start + slot, BlockRead { block_id: id, buf: vstd::slice::slice_to_vec(block) });
        proof {
            assert forall|j: int| 0 <= j < before.len() implies (#[trigger] batch@[j]).block_id == before[j].block_id
                && batch@[j].buf@ == (if names_slot(more, j - start) {
                slot_block(pool@, j - start)
            } else {
                before[j].buf@
            }) by {
                assert(so_far[j].block_id == before[j].block_id);
                if j == start + slot {
                    assert(more[i as int].0 == slot);
                } else {
                    assert(batch@[j] == so_far[j]);
                    if names_slot(done, j - start) {
                        let k = choose|k: int| 0 <= k < done.len() && (#[trigger] done[k]).0 == j - start;
                        assert(more[k].0 == j - start);
                    } else if names_slot(more, j - start) {
                        let k = choose|k: int| 0 <= k < more.len() && (#[trigger] more[k]).0 == j - start;
                        assert(done[k].0 == j - start);
                    }
                }
            }
        }
        i += 1;
    }
    assert(completions@.take(i as int) =~= completions@);
    Ok(())
}

/// The completions name every slot of a chunk of `expected` reads once.
pub open spec fn complete(completions: Seq<(u64, i32)>, expected: int) -> bool {
    &&& completions.len() == expected
    &&& forall|i: int| 0 <= i < completions.len() ==> (#[trigger] completions[i]).0 < expected
    &&& forall|i: int, j: int|
        0 <= i < j < completions.len() ==> (#[trigger] completions[i]).0 != (#[trigger] completions[j]).0
}

/// How many requests chunk `c` holds.
pub open spec fn chunk_len(len: int, depth: int, c: int) -> int {
    chunk(len, depth, c).1 - chunk(len, depth, c).0
}

/// A batch that goes through a ring chunk by chunk: `states` holds it before
/// and after each chunk.
pub open spec fn ring_run(
    states: Seq<Seq<BlockRead>>,
    depth: int,
    pools: Seq<Seq<u8>>,
    reports: Seq<Seq<(u64, i32)>>,
) -> bool {
    let len = states[0].len() as int;
    &&& pools.len() == chunk_total(len, depth)
    &&& reports.len() == pools.len()
    &&& states.len() == pools.len() + 1
    &&& forall|c: int|
        0 <= c < pools.len() ==> complete(#[trigger] reports[c], chunk_len(len, depth, c)) && lands(
            states[c],
            states[c + 1],
            chunk(len, depth, c).0,
            pools[c],
            reports[c],
        )
}

/// The slots of every chunk hold the blocks that were asked for.
pub open spec fn device_serves(
    batch: Seq<BlockRead>,
    depth: int,
    pools: Seq<Seq<u8>>,
    content: spec_fn(u64) -> Seq<u8>,
) -> bool {
    forall|c: int, slot: int|
        0 <= c < pools.len() && 0 <= slot < chunk_len(batch.len() as int, depth, c) ==> #[trigger] slot_block(
            pools[c],
            slot,
        ) == content(batch[chunk(batch.len() as int, depth, c).0 + slot].block_id)
}

/// A ring gives what single reads give: whatever the queue depth, the order,
/// the duplicates and the length of the batch, every request ends up with the
/// content of its block.
pub proof fn law_ring_reads_like_single_reads(
    states: Seq<Seq<BlockRead>>,
    depth: int,
    pools: Seq<Seq<u8>>,
    reports: Seq<Seq<(u64, i32)>>,
    content: spec_fn(u64) -> Seq<u8>,
    i: int,
)
    requires
        depth > 0,
        ring_run(states, depth, pools, reports),
        device_serves(states[0], depth, pools, content),
        0 <= i < states[0].len(),
    ensures
        states.last().len() == states[0].len(),
        states.last()[i].block_id == states[0][i].block_id,
        states.last()[i].buf@ == content(states[0][i].block_id),
{
    let len = states[0].len() as int;
    let c = i / depth;
    let total = pools.len() as int;
    law_chunks_cover(len, depth, i);
    let start = chunk(len, depth, c).0;
    let slot = i - start;
    lemma_same_requests(states, depth, pools, reports, c);
    assert(complete(reports[c], chunk_len(len, depth, c)));
    law_every_request_completes(chunk_len(len, depth, c) as nat, reports[c], slot);
    assert(names_slot(reports[c], slot));
    assert(states[c + 1][i].buf@ == slot_block(pools[c], slot));
    assert(slot_block(pools[c], slot) == content(states[0][start + slot].block_id));
    lemma_later_chunks(states, depth, pools, reports, c + 1, total, i);
    lemma_same_requests(states, depth, pools, reports, total);
}

/// Chunks do not change what is asked for.
proof fn lemma_same_requests(
    states: Seq<Seq<BlockRead>>,
    depth: int,
    pools: Seq<Seq<u8>>,
    reports: Seq<Seq<(u64, i32)>>,
    c: int,
)
    requires
        ring_run(states, depth, pools, reports),
        0 <= c <= pools.len(),
    ensures
        states[c].len() == states[0].len(),
        forall|j: int| 0 <= j < states[0].len() ==> (#[trigger] states[c][j]).block_id == states[0][j].block_id,
    decreases c,
{
    if c > 0 {
        lemma_same_requests(states, depth, pools, reports, c - 1);
        let len = states[0].len() as int;
        assert(complete(reports[c - 1], chunk_len(len, depth, c - 1)));
        assert forall|j: int| 0 <= j < states[0].len() implies (#[trigger] states[c][j]).block_id
            == states[0][j].block_id by {
            assert(states[c - 1][j].block_id == states[0][j].block_id);
        }
    }
}

/// Chunks that start behind a request leave it alone.
proof fn lemma_later_chunks(
    states: Seq<Seq<BlockRead>>,
    depth: int,
    pools: Seq<Seq<u8>>,
    reports: Seq<Seq<(u64, i32)>>,
    from: int,
    to: int,
    i: int,
)
    requires
        depth > 0,
        ring_run(states, depth, pools, reports),
        0 <= from <= to <= pools.len(),
        0 <= i < states[0].len(),
        i < from * depth,
    ensures
        states[to][i].buf@ == states[from][i].buf@,
    decreases to - from,
{
    if from < to {
        let len = states[0].len() as int;
        let c = to - 1;
        lemma_later_chunks(states, depth, pools, reports, from, c, i);
        lemma_same_requests(states, depth, pools, reports, c);
        assert(complete(reports[c], chunk_len(len, depth, c)));
        assert(from * depth <= c * depth) by (nonlinear_arith)
            requires
                from <= c,
                depth > 0,
        ;
        assert(!names_slot(reports[c], i - chunk(len, depth, c).0));
        assert(states[c + 1][i].buf@ == states[c][i].buf@);
    }
}

/// A batch is refused for its first request whose buffer does not hold one
/// block, or whose block does not exist; and for no other reason.
pub proof fn law_first_bad_request_decides(batch: Seq<BlockRead>, num_blocks: u64, from: int)
    requires
        0 <= from <= batch.len(),
        forall|i: int| 0 <= i < batch.len() ==> (#[trigger] batch[i]).buf@.len() <= usize::MAX,
    ensures
        match first_refusal(batch, num_blocks, from) {
            None => forall|i: int|
                from <= i < batch.len() ==> (#[trigger] batch[i]).buf@.len() == 4096 && batch[i].block_id < num_blocks,
            Some(e) => exists|i: int|
                from <= i < batch.len() && !((#[trigger] batch[i]).buf@.len() == 4096 && batch[i].block_id
                    < num_blocks) && (forall|j: int|
                    from <= j < i ==> (#[trigger] batch[j]).buf@.len() == 4096 && batch[j].block_id < num_blocks) && (
                batch[i].buf@.len() != 4096 ==> e == (RequestError::BufferLength { len: batch[i].buf@.len() as usize }))
                    && (batch[i].buf@.len() == 4096 ==> e == (RequestError::OutOfRange {
                    block_id: batch[i].block_id,
                    num_blocks,
                })),
        },
    decreases batch.len() - from,
{
    if from < batch.len() {
        if request_error(batch[from], num_blocks) is Some {
            let e = request_error(batch[from], num_blocks)->Some_0;
            assert(!(batch[from].buf@.len() == 4096 && batch[from].block_id < num_blocks));
        } else {
            law_first_bad_request_decides(batch, num_blocks, from + 1);
            match first_refusal(batch, num_blocks, from + 1) {
                None => {},
                Some(e) => {
                    let i = choose|i: int|
                        from + 1 <= i < batch.len() && !((#[trigger] batch[i]).buf@.len() == 4096 && batch[i].block_id
                            < num_blocks) && (forall|j: int|
                            from + 1 <= j < i ==> (#[trigger] batch[j]).buf@.len() == 4096 && batch[j].block_id
                                < num_blocks) && (batch[i].buf@.len() != 4096 ==> e == (RequestError::BufferLength {
                            len: batch[i].buf@.len() as usize,
                        })) && (batch[i].buf@.len() == 4096 ==> e == (RequestError::OutOfRange {
                            block_id: batch[i].block_id,
                            num_blocks,
                        }));
                    assert forall|j: int| from <= j < i implies (#[trigger] batch[j]).buf@.len() == 4096
                        && batch[j].block_id < num_blocks by {}
                    assert(from <= i < batch.len());
                },
            }
        }
    }
}

/// Blocks are taken in up to the first completion that did not bring one.
pub proof fn law_landing_stops_at_the_first_fault(completions: Seq<(u64, i32)>, i: int)
    requires
        0 <= i <= completions.len(),
    ensures
        i <= sound_until(completions, i) <= completions.len(),
        forall|j: int| i <= j < sound_until(completions, i) ==> (#[trigger] completions[j]).1 == 4096,
        sound_until(completions, i) < completions.len() ==> completions[sound_until(completions, i)].1 != 4096,
    decreases completions.len() - i,
{
    if i < completions.len() && result_fault(completions[i].1) is None {
        law_landing_stops_at_the_first_fault(completions, i + 1);
    }
}

/// Where a chunk landed, each request that a completion named holds the 4096
/// bytes of its own slot, every other request holds what it held, and what is
/// asked for stays the same.
pub proof fn law_landed_blocks_come_from_their_slots(
    before: Seq<BlockRead>,
    after: Seq<BlockRead>,
    start: int,
    pool: Seq<u8>,
    completions: Seq<(u64, i32)>,
    j: int,
)
    requires
        lands(before, after, start, pool, completions),
        0 <= j < before.len(),
    ensures
        after.len() == before.len(),
        after[j].block_id == before[j].block_id,
        (exists|i: int| 0 <= i < completions.len() && (#[trigger] completions[i]).0 == j - start) ==> after[j].buf@
            == pool.subrange(4096 * (j - start), 4096 * (j - start) + 4096),
        !(exists|i: int| 0 <= i < completions.len() && (#[trigger] completions[i]).0 == j - start) ==> after[j].buf@
            == before[j].buf@,
{
    assert(after[j] == after[j]);
}

} // verus!
