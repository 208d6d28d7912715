# nvvec

NVMe-native single-machine vector search, verified with Verus.

A disk-resident index holds a Vamana graph and its full-precision vectors in
4 KiB blocks. A search keeps only a routing scorer in memory (exact vectors or
one byte per dimension), reads one block per expanded node, and reranks every
expanded node against the vector in its block.

## Layout

`src/` is the library. Every item in it is verified.

- `dataset`, `distance`, `topk`, `brute`, `eval`, `scorer`: vector files,
  distances, exact scans, recall and latency, routing
- `beam`, `reach`: the model of a best-first search, and its laws; `search`: the
  search
- `vamana`, `graph`: construction and the frozen graph with its file
- `io`, `ring`, `layout`, `disk`: blocks, batches over a ring, the index file,
  search over it
- `schedule`, `pipeline`, `parity`: many queries over one deep queue
- `quant`: scalar quantization; `server`, `bench`: what the server and the
  harness decide
- `bits`, `bytes`, `select`: the order of float bit patterns, little-endian
  words, and selections of the smallest

`app/` is the program around it: command line, files, io_uring, threads, HTTP
and floating-point arithmetic.

## Floating point

Numbers travel as IEEE 754 bit patterns (`u32`, `u64`). The library orders
them itself; their arithmetic is handed in as functions, and contracts speak of
what those functions give. Public functions whose names begin with `law_` state
what holds of several operations together.
