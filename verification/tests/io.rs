//! Block requests, batches, and the planning of ring submissions.

use nvvec::io::{
    block_count, check_completions, plan_chunks, validate, BlockRead, BlockReader, ReadFault, RequestError, UringOpts,
    BLOCK_SIZE,
};
use nvvec::ring::{land_chunk, validate_batch};

/// Blocks held in memory.
struct MemoryBlocks {
    content: Vec<u8>,
    num_blocks: u64,
}

impl MemoryBlocks {
    fn open(content: Vec<u8>) -> Result<MemoryBlocks, RequestError> {
        let num_blocks = block_count(content.len() as u64)?;
        Ok(MemoryBlocks { content, num_blocks })
    }
}

impl BlockReader for MemoryBlocks {
    type Error = RequestError;

    fn num_blocks(&self) -> u64 {
        self.num_blocks
    }

    fn read_block(&self, block_id: u64, buf: &mut [u8]) -> Result<(), RequestError> {
        let at = validate(buf.len(), block_id, self.num_blocks)? as usize;
        buf.copy_from_slice(&self.content[at..at + BLOCK_SIZE]);
        Ok(())
    }
}

fn request(block_id: u64) -> BlockRead {
    BlockRead { block_id, buf: vec![0u8; BLOCK_SIZE] }
}

#[test]
fn single_and_batch_reads() {
    // 3 blocks, filled with byte 1 / 2 / 3 respectively
    let mut content = vec![0u8; BLOCK_SIZE * 3];
    for (i, b) in content.iter_mut().enumerate() {
        *b = (i / BLOCK_SIZE) as u8 + 1;
    }
    let reader = MemoryBlocks::open(content).unwrap();
    assert_eq!(reader.num_blocks(), 3);

    let mut buf = vec![0u8; BLOCK_SIZE];
    reader.read_block(2, &mut buf).unwrap();
    assert!(buf.iter().all(|&b| b == 3));

    let mut batch = vec![request(1), request(0)];
    reader.read_batch(&mut batch).unwrap();
    assert!(batch[0].buf.iter().all(|&b| b == 2));
    assert!(batch[1].buf.iter().all(|&b| b == 1));
}

#[test]
fn rejects_unaligned_file() {
    assert!(MemoryBlocks::open(vec![0u8; BLOCK_SIZE + 1]).is_err());
    assert_eq!(block_count(4097), Err(RequestError::UnalignedFile { size: 4097 }));
    assert_eq!(block_count(0), Ok(0));
    assert_eq!(block_count(3 * 4096), Ok(3));
}

#[test]
fn rejects_bad_requests() {
    let reader = MemoryBlocks::open(vec![0u8; BLOCK_SIZE]).unwrap();
    let mut buf = vec![0u8; BLOCK_SIZE];
    assert!(reader.read_block(1, &mut buf).is_err());
    assert!(reader.read_block(0, &mut buf[..BLOCK_SIZE - 1]).is_err());
}

#[test]
fn rejects_out_of_range() {
    let reader = MemoryBlocks::open(vec![0u8; BLOCK_SIZE * 4]).unwrap();
    let mut buf = vec![0u8; BLOCK_SIZE];
    assert!(reader.read_block(4, &mut buf).is_err());
    assert_eq!(
        validate(BLOCK_SIZE, 4, 4),
        Err(RequestError::OutOfRange { block_id: 4, num_blocks: 4 })
    );
    // the buffer is looked at first
    assert_eq!(validate(7, 4, 4), Err(RequestError::BufferLength { len: 7 }));
    assert_eq!(validate(BLOCK_SIZE, 3, 4), Ok(3 * 4096));
}

#[test]
fn a_batch_stops_at_the_first_bad_request() {
    let reader = MemoryBlocks::open(vec![5u8; BLOCK_SIZE * 2]).unwrap();
    let mut batch = vec![request(1), request(2), request(0)];
    assert_eq!(
        reader.read_batch(&mut batch),
        Err(RequestError::OutOfRange { block_id: 2, num_blocks: 2 })
    );
    assert!(batch[0].buf.iter().all(|&b| b == 5));
    assert!(batch[2].buf.iter().all(|&b| b == 0));
    assert_eq!(reader.read_batch(&mut Vec::new()), Ok(()));
}

#[test]
fn a_boxed_reader_reads_the_same() {
    let content: Vec<u8> = (0..2 * BLOCK_SIZE).map(|i| (i / BLOCK_SIZE) as u8 + 7).collect();
    let reader: Box<dyn BlockReader<Error = RequestError>> = Box::new(MemoryBlocks::open(content).unwrap());
    assert_eq!(reader.num_blocks(), 2);
    let mut batch = vec![request(1), request(0), request(1)];
    reader.read_batch(&mut batch).unwrap();
    assert_eq!(batch[0].buf[17], 8);
    assert_eq!(batch[1].buf[17], 7);
    assert_eq!(batch[2].buf[4095], 8);
}

#[test]
fn batches_are_split_over_the_ring() {
    assert_eq!(plan_chunks(0, 128), vec![]);
    assert_eq!(plan_chunks(200, 128), vec![(0, 128), (128, 200)]);
    assert_eq!(plan_chunks(256, 128), vec![(0, 128), (128, 256)]);
    assert_eq!(plan_chunks(3, 1), vec![(0, 1), (1, 2), (2, 3)]);
    // every request lies in exactly one chunk
    for len in 0..40 {
        for depth in 1..12 {
            let chunks = plan_chunks(len, depth);
            let covered: Vec<usize> = chunks.iter().flat_map(|&(a, b)| a..b).collect();
            assert_eq!(covered, (0..len).collect::<Vec<usize>>());
            assert!(chunks.iter().all(|&(a, b)| b - a <= depth));
        }
    }
}

/// Serves a batch chunk by chunk, each chunk in reverse.
struct RingBlocks {
    blocks: MemoryBlocks,
    depth: usize,
}

impl BlockReader for RingBlocks {
    type Error = RequestError;

    fn num_blocks(&self) -> u64 {
        self.blocks.num_blocks()
    }

    fn read_block(&self, block_id: u64, buf: &mut [u8]) -> Result<(), RequestError> {
        self.blocks.read_block(block_id, buf)
    }

    fn read_batch(&self, batch: &mut Vec<BlockRead>) -> Result<(), RequestError> {
        let offsets = validate_batch(batch, self.blocks.num_blocks)?;
        let mut pool = vec![0u8; self.depth * BLOCK_SIZE];
        for (start, end) in plan_chunks(batch.len(), self.depth) {
            let mut completions = Vec::new();
            for slot in (0..end - start).rev() {
                let at = offsets[start + slot] as usize;
                pool[slot * BLOCK_SIZE..(slot + 1) * BLOCK_SIZE]
                    .copy_from_slice(&self.blocks.content[at..at + BLOCK_SIZE]);
                completions.push((slot as u64, BLOCK_SIZE as i32));
            }
            assert_eq!(land_chunk(batch, start, end - start, &completions, &pool), Ok(()));
        }
        Ok(())
    }
}

#[test]
fn batches_are_checked_before_they_are_submitted() {
    let mut batch = vec![request(3), request(0)];
    assert_eq!(validate_batch(&batch, 4), Ok(vec![3 * 4096, 0]));
    assert_eq!(validate_batch(&Vec::new(), 4), Ok(vec![]));
    batch.push(request(4));
    batch.push(BlockRead { block_id: 0, buf: vec![0; 5] });
    assert_eq!(validate_batch(&batch, 4), Err(RequestError::OutOfRange { block_id: 4, num_blocks: 4 }));
    batch.swap(2, 3);
    assert_eq!(validate_batch(&batch, 4), Err(RequestError::BufferLength { len: 5 }));
}

#[test]
fn a_chunk_lands_up_to_its_first_fault() {
    let mut pool = vec![7u8; BLOCK_SIZE];
    pool.resize(2 * BLOCK_SIZE, 8);
    let full = BLOCK_SIZE as i32;
    let first = |batch: &Vec<BlockRead>| batch.iter().map(|r| r.buf[0]).collect::<Vec<u8>>();

    let mut batch = vec![request(0), request(1), request(2)];
    assert_eq!(land_chunk(&mut batch, 1, 2, &[(1, full), (0, full)], &pool), Ok(()));
    assert_eq!(first(&batch), vec![0, 7, 8]);
    assert_eq!(batch.iter().map(|r| r.block_id).collect::<Vec<u64>>(), vec![0, 1, 2]);

    let mut batch = vec![request(0), request(1), request(2)];
    assert_eq!(land_chunk(&mut batch, 1, 2, &[(1, full), (0, -5)], &pool), Err(ReadFault::Os { code: 5 }));
    assert_eq!(first(&batch), vec![0, 0, 8]);

    let mut batch = vec![request(0), request(1)];
    assert_eq!(
        land_chunk(&mut batch, 0, 2, &[(0, 100), (1, full)], &pool),
        Err(ReadFault::ShortRead { bytes: 100 })
    );
    assert_eq!(
        land_chunk(&mut batch, 0, 2, &[(0, full)], &pool),
        Err(ReadFault::Completions { expected: 2, reaped: 1 })
    );
    assert_eq!(first(&batch), vec![0, 0]);
}

#[test]
fn matches_pread_on_shuffled_batches() {
    let mut content = vec![0u8; BLOCK_SIZE * 64];
    for (i, b) in content.iter_mut().enumerate() {
        *b = ((i / BLOCK_SIZE) % 251) as u8;
    }
    let depth = UringOpts::default().queue_depth as usize;
    let ring = RingBlocks { blocks: MemoryBlocks::open(content.clone()).unwrap(), depth };
    let plain = MemoryBlocks::open(content).unwrap();
    assert_eq!(ring.num_blocks(), 64);

    // deliberately unordered, with duplicates, larger than one hop's worth
    let ids: Vec<u64> = (0..200).map(|i| (i * 37 + 11) % 64).collect();
    let mut batch: Vec<BlockRead> = ids.iter().map(|&id| request(id)).collect();
    ring.read_batch(&mut batch).unwrap();

    let mut buf = vec![0u8; BLOCK_SIZE];
    for (&id, r) in ids.iter().zip(&batch) {
        plain.read_block(id, &mut buf).unwrap();
        assert_eq!(r.buf, buf, "block {id} mismatch");
    }
}

#[test]
fn completions_tell_what_went_wrong() {
    let ok = [(1u64, 4096i32), (0, 4096)];
    assert_eq!(check_completions(2, &ok), Ok(()));
    assert_eq!(
        check_completions(3, &ok),
        Err(ReadFault::Completions { expected: 3, reaped: 2 })
    );
    assert_eq!(check_completions(2, &[(0, 4096), (1, -5)]), Err(ReadFault::Os { code: 5 }));
    assert_eq!(
        check_completions(2, &[(0, 100), (1, -5)]),
        Err(ReadFault::ShortRead { bytes: 100 })
    );
    assert_eq!(check_completions(1, &[(0, i32::MIN)]), Err(ReadFault::Os { code: 1 << 31 }));
    assert_eq!(check_completions(0, &[]), Ok(()));
}

#[test]
fn ring_defaults() {
    let opts = UringOpts::default();
    assert_eq!((opts.queue_depth, opts.direct), (128, false));
}
