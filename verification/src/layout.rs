//! The block layout of the on-disk index: a header block, then data blocks
//! with nodes packed `BLOCK_SIZE / node_len` per block. A node is
//! `[vector: dim*f32][degree: u32][neighbors: r*u32 zero-padded]`, so one
//! block read yields both a node's adjacency (for routing) and its
//! full-precision vector (for reranking).

use vstd::arithmetic::div_mod::{lemma_fundamental_div_mod, lemma_mod_bound};
use vstd::arithmetic::mul::{lemma_mul_inequality, lemma_mul_is_commutative, lemma_mul_is_distributive_add_other_way};
use vstd::prelude::*;

use crate::bytes::{
    law_long_roundtrip, law_word_roundtrip, law_words_roundtrip, le32, le64, le_words, lemma_concat, long_at, push_u32,
    push_u64, push_words, push_zeros, read_u32, read_u64, read_words, word_at, words_at,
};
use crate::dataset::{lemma_row_bounds, FloatVectors};
use crate::graph::VamanaGraph;
use crate::io::{chunk, chunk_total, law_chunks_cover, lemma_chunk_total, plan_chunks, BLOCK_SIZE};

verus! {

/// A disk index starts with these bytes.
pub open spec fn index_magic() -> Seq<u8> {
    seq![78u8, 86u8, 86u8, 68u8]
}

/// The version of the index format.
pub const INDEX_VERSION: u32 = 1;

/// `count` zero bytes.
pub open spec fn zeros(count: nat) -> Seq<u8> {
    Seq::new(count, |i: int| 0u8)
}

/// The length of a node of `dim` elements and `r` neighbor slots.
pub open spec fn node_size(dim: int, r: int) -> int {
    4 * dim + 4 + 4 * r
}

/// The bytes of a node.
pub open spec fn node_image(vector: Seq<u32>, list: Seq<u32>, r: nat) -> Seq<u8> {
    le_words(vector) + le32(list.len() as u32) + le_words(list) + zeros((4 * (r - list.len())) as nat)
}

/// The vector in a node's bytes.
pub open spec fn node_vector(node: Seq<u8>, dim: nat) -> Seq<u32> {
    words_at(node, 0, dim)
}

/// The neighbors in a node's bytes; a degree beyond `r` counts as `r`.
pub open spec fn node_list(node: Seq<u8>, dim: nat, r: nat) -> Seq<u32> {
    let deg = word_at(node, 4 * dim as int);
    words_at(node, 4 * dim as int + 4, if deg < r { deg as nat } else { r })
}

/// What the header says of the index.
#[derive(Clone, Copy, Debug)]
pub struct DiskIndexMeta {
    pub n: u64,
    pub dim: u32,
    pub r: u32,
    pub medoid: u32,
    pub node_len: u32,
    pub nodes_per_block: u32,
}

impl DiskIndexMeta {
    /// Nodes have the length of their parts, and as many as fit are packed
    /// into a block, at least one.
    pub open spec fn wf(self) -> bool {
        &&& self.node_len == node_size(self.dim as int, self.r as int)
        &&& self.node_len <= 4096
        &&& self.nodes_per_block == 4096int / self.node_len as int
    }

    /// How many blocks the nodes take.
    pub open spec fn blocks(self) -> int {
        chunk_total(self.n as int, self.nodes_per_block as int)
    }

    /// The block of a node.
    pub open spec fn block_of(self, node: u32) -> int {
        1 + node as int / self.nodes_per_block as int
    }

    /// Where in its block a node starts.
    pub open spec fn offset_of(self, node: u32) -> int {
        (node as int % self.nodes_per_block as int) * self.node_len
    }

    /// The bytes of a node within its block.
    pub open spec fn node_in(self, block: Seq<u8>, node: u32) -> Seq<u8> {
        block.subrange(self.offset_of(node), self.offset_of(node) + self.node_len)
    }

    /// The vector of a node, read from its block.
    pub open spec fn vector_in(self, block: Seq<u8>, node: u32) -> Seq<u32> {
        node_vector(self.node_in(block, node), self.dim as nat)
    }

    /// The neighbors of a node, read from its block.
    pub open spec fn list_in(self, block: Seq<u8>, node: u32) -> Seq<u32> {
        node_list(self.node_in(block, node), self.dim as nat, self.r as nat)
    }

    /// The header block.
    #[verifier::opaque]
    pub open spec fn header(self) -> Seq<u8> {
        index_magic() + le32(INDEX_VERSION) + le64(self.n) + le32(self.dim) + le32(self.r) + le32(self.medoid) + le32(
            self.node_len,
        ) + le32(self.nodes_per_block) + zeros(4060)
    }

    /// A node lies within its block.
    pub proof fn lemma_offset(self, node: u32)
        requires
            self.wf(),
        ensures
            self.nodes_per_block > 0,
            0 <= node as int % self.nodes_per_block as int,
            (node as int % self.nodes_per_block as int) < self.nodes_per_block,
            0 <= self.offset_of(node),
            self.offset_of(node) + self.node_len <= self.nodes_per_block * self.node_len <= 4096,
    {
        let npb = self.nodes_per_block as int;
        let len = self.node_len as int;
        lemma_fundamental_div_mod(4096, len);
        lemma_mod_bound(4096, len);
        lemma_mul_is_commutative(len, npb);
        assert(npb >= 1) by (nonlinear_arith)
            requires
                len * npb + 4096int % len == 4096,
                4096int % len < len,
                0 < len <= 4096,
        ;
        lemma_mod_bound(node as int, npb);
        lemma_row_bounds(node as int % npb, len, npb);
    }

    /// How many blocks the nodes take.
    pub fn data_blocks(&self) -> (b: u64)
        requires
            self.nodes_per_block > 0,
        ensures
            b == self.blocks(),
    {
        let npb: u64 = self.nodes_per_block as u64;
        let whole: u64 = self.n / npb;
        let rest: u64 = self.n % npb;
        proof {
            let n = self.n as int;
            lemma_fundamental_div_mod(n, npb as int);
            lemma_mul_is_commutative(npb as int, whole as int);
            lemma_mul_is_distributive_add_other_way(npb as int, whole as int, 1);
            lemma_chunk_total(n, npb as int, whole as int);
            lemma_chunk_total(n, npb as int, whole + 1);
            lemma_mul_inequality(1, npb as int, whole as int);
        }
        if rest > 0 {
            proof {
                assert(whole < u64::MAX) by {
                    lemma_mul_inequality(1, npb as int, whole as int);
                    lemma_mul_is_commutative(npb as int, whole as int);
                }
            }
            whole + 1
        } else {
            proof {
                if whole > 0 {
                    lemma_chunk_total(self.n as int, npb as int, whole - 1);
                    lemma_mul_is_distributive_add_other_way(npb as int, whole - 1, 1);
                } else {
                    lemma_chunk_total(self.n as int, npb as int, 0);
                }
            }
            whole
        }
    }

    /// The block of a node, and where in it the node starts.
    pub fn locate(&self, node: u32) -> (at: (u64, usize))
        requires
            self.wf(),
        ensures
            at.0 == self.block_of(node),
            at.1 == self.offset_of(node),
            at.1 + self.node_len <= 4096,
    {
        proof {
            self.lemma_offset(node);
        }
        let npb: u64 = self.nodes_per_block as u64;
        (1 + node as u64 / npb, (node as u64 % npb) as usize * self.node_len as usize)
    }
}

/// Decodes the vector at the head of a node's bytes. Reranking then measures
/// it with the ordinary metric.
pub fn decode_vector(node_bytes: &[u8], dim: usize) -> (v: Vec<u32>)
    requires
        4 * dim <= node_bytes@.len(),
    ensures
        v@ == node_vector(node_bytes@, dim as nat),
        v@.len() == dim,
{
    read_words(node_bytes, 0, dim)
}

/// Decodes the neighbors in a node's bytes.
pub fn parse_neighbors(node_bytes: &[u8], dim: usize, r: usize) -> (v: Vec<u32>)
    requires
        node_size(dim as int, r as int) <= node_bytes@.len(),
    ensures
        v@ == node_list(node_bytes@, dim as nat, r as nat),
{
    assert(node_bytes@.len() == node_bytes.len());
    let deg_off: usize = dim * 4;
    let deg: usize = read_u32(node_bytes, deg_off) as usize;
    let count: usize = if deg < r { deg } else { r };
    read_words(node_bytes, deg_off + 4, count)
}

/// Why vectors and a graph cannot be packed.
#[derive(Debug, Clone, Copy, PartialEq, Eq)]
pub enum PackError {
    /// A node does not fit one block; nodes of several blocks are not
    /// supported.
    NodeTooLarge { node_len: u128 },
}

/// The nodes `first..first + count`, one after the other.
pub open spec fn packed(nodes: spec_fn(int) -> Seq<u8>, first: int, count: nat) -> Seq<u8>
    decreases count,
{
    if count == 0 {
        Seq::empty()
    } else {
        packed(nodes, first, (count - 1) as nat) + nodes(first + count - 1)
    }
}

/// Data block `b`: its nodes, then zeros.
pub open spec fn data_block(nodes: spec_fn(int) -> Seq<u8>, meta: DiskIndexMeta, b: int) -> Seq<u8> {
    let (start, end) = chunk(meta.n as int, meta.nodes_per_block as int, b);
    let body = packed(nodes, start, (end - start) as nat);
    body + zeros((4096 - body.len()) as nat)
}

/// The header and the first `b` data blocks.
pub open spec fn index_prefix(nodes: spec_fn(int) -> Seq<u8>, meta: DiskIndexMeta, b: nat) -> Seq<u8>
    decreases b,
{
    if b == 0 {
        meta.header()
    } else {
        index_prefix(nodes, meta, (b - 1) as nat) + data_block(nodes, meta, b - 1)
    }
}

/// The bytes of every node.
pub open spec fn node_images(base: FloatVectors, graph: VamanaGraph) -> spec_fn(int) -> Seq<u8> {
    |i: int| node_image(base.row(i), graph.list(i), graph.r as nat)
}

/// What the header of the index says.
pub open spec fn index_meta(base: FloatVectors, graph: VamanaGraph) -> DiskIndexMeta {
    let len = node_size(base.dim as int, graph.r as int);
    DiskIndexMeta {
        n: base.count as u64,
        dim: base.dim as u32,
        r: graph.r as u32,
        medoid: graph.medoid,
        node_len: len as u32,
        nodes_per_block: (4096int / len) as u32,
    }
}

/// The whole index.
pub open spec fn index_file(base: FloatVectors, graph: VamanaGraph) -> Seq<u8> {
    let meta = index_meta(base, graph);
    index_prefix(node_images(base, graph), meta, meta.blocks() as nat)
}

/// Appends the header block.
fn push_header(out: &mut Vec<u8>, meta: &DiskIndexMeta)
    ensures
        final(out)@ == old(out)@ + meta.header(),
{
    out.push(78);
    out.push(86);
    out.push(86);
    out.push(68);
    assert(out@ =~= old(out)@ + index_magic());
    push_u32(out, INDEX_VERSION);
    push_u64(out, meta.n);
    push_u32(out, meta.dim);
    push_u32(out, meta.r);
    push_u32(out, meta.medoid);
    push_u32(out, meta.node_len);
    push_u32(out, meta.nodes_per_block);
    push_zeros(out, 4060);
    reveal(DiskIndexMeta::header);
    assert(out@ =~= old(out)@ + meta.header());
}

/// Appends the bytes of a node.
fn push_node(out: &mut Vec<u8>, vector: &[u32], list: &[u32], r: usize)
    requires
        list@.len() <= r <= 255,
    ensures
        final(out)@ == old(out)@ + node_image(vector@, list@, r as nat),
{
    assert(list@.len() == list.len());
    push_words(out, vector);
    push_u32(out, list.len() as u32);
    push_words(out, list);
    push_zeros(out, 4 * (r - list.len()));
    assert(out@ =~= old(out)@ + node_image(vector@, list@, r as nat));
}

/// A node has the length of its parts.
proof fn lemma_node_image_len(vector: Seq<u32>, list: Seq<u32>, r: nat)
    requires
        list.len() <= r,
    ensures
        node_image(vector, list, r).len() == node_size(vector.len() as int, r as int),
{
}

/// The rows and the lists of vectors and graph.
proof fn lemma_node_images(base: FloatVectors, graph: VamanaGraph, i: int)
    requires
        base.wf(),
        graph.wf(),
        base.count == graph.nodes(),
        0 <= i < base.count,
    ensures
        base.row(i).len() == base.dim,
        graph.list(i).len() == graph.degrees@[i],
        graph.list(i).len() <= graph.r,
        node_images(base, graph)(i).len() == node_size(base.dim as int, graph.r as int),
{
    lemma_row_bounds(i, base.dim as int, base.count as int);
    lemma_row_bounds(i, graph.r as int, graph.nodes() as int);
    lemma_node_image_len(base.row(i), graph.list(i), graph.r as nat);
}

/// Packed nodes have their places.
proof fn lemma_packed(nodes: spec_fn(int) -> Seq<u8>, first: int, count: nat, len: nat)
    requires
        forall|i: int| first <= i < first + count ==> (#[trigger] nodes(i)).len() == len,
    ensures
        packed(nodes, first, count).len() == count * len,
        forall|s: int|
            0 <= s < count ==> #[trigger] packed(nodes, first, count).subrange(s * len, s * len + len) == nodes(
                first + s,
            ),
    decreases count,
{
    if count == 0 {
    } else {
        let init = packed(nodes, first, (count - 1) as nat);
        let all = packed(nodes, first, count);
        lemma_packed(nodes, first, (count - 1) as nat, len);
        lemma_row_bounds(count - 1, len as int, count as int);
        assert(nodes(first + count - 1).len() == len);
        assert forall|s: int| 0 <= s < count implies #[trigger] all.subrange(s * len, s * len + len) == nodes(
            first + s,
        ) by {
            lemma_row_bounds(s, len as int, count as int);
            if s < count - 1 {
                lemma_row_bounds(s, len as int, count - 1);
                assert(init.subrange(s * len, s * len + len) == nodes(first + s));
                assert(all.subrange(s * len, s * len + len) =~= init.subrange(s * len, s * len + len));
            } else {
                assert(all.subrange(s * len, s * len + len) =~= nodes(first + s));
            }
        }
    }
}

/// Packs vectors and graph into the block layout.
pub fn write_disk_index(base: &FloatVectors, graph: &VamanaGraph) -> (r: Result<(DiskIndexMeta, Vec<u8>), PackError>)
    requires
        base.wf(),
        graph.wf(),
        base.count == graph.nodes(),
        graph.r <= 255,
    ensures
        ({
            let len = node_size(base.dim as int, graph.r as int);
            if len > 4096 {
                r == Err::<(DiskIndexMeta, Vec<u8>), PackError>(PackError::NodeTooLarge { node_len: len as u128 })
            } else {
                &&& r is Ok
                &&& r->Ok_0.0 == index_meta(*base, *graph)
                &&& r->Ok_0.1@ == index_file(*base, *graph)
            }
        }),
{
    let dim: usize = base.dim;
    let r: usize = graph.r();
    let len: u128 = dim as u128 * 4 + 4 + r as u128 * 4;
    if len > BLOCK_SIZE as u128 {
        return Err(PackError::NodeTooLarge { node_len: len });
    }
    let node_len: usize = len as usize;
    let npb: usize = BLOCK_SIZE / node_len;
    let meta = DiskIndexMeta {
        n: base.count as u64,
        dim: dim as u32,
        r: r as u32,
        medoid: graph.medoid,
        node_len: node_len as u32,
        nodes_per_block: npb as u32,
    };
    assert(meta == index_meta(*base, *graph));
    proof {
        meta.lemma_offset(0);
    }
    let ghost nodes = node_images(*base, *graph);
    let mut out: Vec<u8> = Vec::new();
    push_header(&mut out, &meta);
    assert(out@ =~= meta.header());
    let chunks = plan_chunks(base.count, npb);
    let mut b: usize = 0;
    while b < chunks.len()
        invariant
            b <= chunks@.len(),
            base.wf(),
            graph.wf(),
            base.count == graph.nodes(),
            r == graph.r,
            r <= 255,
            npb == meta.nodes_per_block,
            npb > 0,
            node_len == meta.node_len,
            node_len == node_size(base.dim as int, graph.r as int),
            npb * node_len <= 4096,
            meta.n == base.count,
            chunks@.len() == meta.blocks(),
            forall|i: int|
                0 <= i < chunks@.len() ==> (#[trigger] chunks@[i]).0 == chunk(base.count as int, npb as int, i).0
                    && chunks@[i].1 == chunk(base.count as int, npb as int, i).1,
            nodes == node_images(*base, *graph),
            out@ == index_prefix(nodes, meta, b as nat),
        decreases chunks@.len() - b,
    {
        let (start, end): (usize, usize) = chunks[b];
        proof {
            lemma_chunk_total(base.count as int, npb as int, b as int);
            lemma_mul_is_distributive_add_other_way(npb as int, b as int, 1);
        }
        let mut block: Vec<u8> = Vec::new();
        let mut node: usize = start;
        while node < end
            invariant
                start <= node <= end <= base.count,
                end - start <= npb,
                base.wf(),
                graph.wf(),
                base.count == graph.nodes(),
                r == graph.r,
                r <= 255,
                nodes == node_images(*base, *graph),
                block@ == packed(nodes, start as int, (node - start) as nat),
            decreases end - node,
        {
            proof {
                lemma_node_images(*base, *graph, node as int);
                lemma_row_bounds(node as int, r as int, graph.nodes() as int);
            }
            let list = graph_row(graph, node);
            push_node(&mut block, base.get(node), list, r);
            node += 1;
        }
        proof {
            assert forall|i: int| start <= i < start + (end - start) implies (#[trigger] nodes(i)).len()
                == node_len by {
                lemma_node_images(*base, *graph, i);
            }
            lemma_packed(nodes, start as int, (end - start) as nat, node_len as nat);
            lemma_mul_inequality(end - start, npb as int, node_len as int);
        }
        let used: usize = block.len();
        push_zeros(&mut block, BLOCK_SIZE - used);
        assert(block@ =~= data_block(nodes, meta, b as int));
        out.append(&mut block);
        b += 1;
    }
    Ok((meta, out))
}

/// The neighbors of node `i`.
fn graph_row(graph: &VamanaGraph, i: usize) -> (list: &[u32])
    requires
        graph.wf(),
        i < graph.nodes(),
    ensures
        list@ == graph.list(i as int),
        list@.len() <= graph.r,
{
    proof {
        lemma_row_bounds(i as int, graph.r as int, graph.nodes() as int);
    }
    vstd::slice::slice_subrange(graph.neighbors.as_slice(), i * graph.r, i * graph.r + graph.degrees[i] as usize)
}

/// Reading a node's bytes gives back its vector and its neighbors.
pub proof fn law_node_roundtrip(vector: Seq<u32>, list: Seq<u32>, r: nat)
    requires
        list.len() <= r <= u32::MAX,
    ensures
        node_vector(node_image(vector, list, r), vector.len()) == vector,
        node_list(node_image(vector, list, r), vector.len(), r) == list,
{
    let dim = vector.len() as int;
    let pad = zeros((4 * (r - list.len())) as nat);
    let s1 = le_words(vector);
    let s2 = s1 + le32(list.len() as u32);
    let s3 = s2 + le_words(list);
    let image = s3 + pad;
    lemma_concat(s1, le32(list.len() as u32));
    lemma_concat(s2, le_words(list));
    lemma_concat(s3, pad);
    assert(s1.subrange(0, 4 * dim) =~= s1);
    law_words_roundtrip(vector, image, 0);
    law_word_roundtrip(list.len() as u32, image, 4 * dim);
    law_words_roundtrip(list, image, 4 * dim + 4);
}

/// The blocks of an index have their places.
proof fn lemma_index_prefix(nodes: spec_fn(int) -> Seq<u8>, meta: DiskIndexMeta, b: nat)
    requires
        meta.wf(),
        b <= meta.blocks(),
        forall|i: int| 0 <= i < meta.n ==> (#[trigger] nodes(i)).len() == meta.node_len,
    ensures
        index_prefix(nodes, meta, b).len() == 4096 * (1 + b),
        index_prefix(nodes, meta, b).subrange(0, 4096) == meta.header(),
        forall|i: int|
            0 <= i < b ==> #[trigger] index_prefix(nodes, meta, b).subrange(4096 * (1 + i), 4096 * (2 + i))
                == data_block(nodes, meta, i),
    decreases b,
{
    let all = index_prefix(nodes, meta, b);
    lemma_header(meta);
    if b == 0 {
        assert(all.subrange(0, 4096) =~= meta.header());
    } else {
        let init = index_prefix(nodes, meta, (b - 1) as nat);
        lemma_index_prefix(nodes, meta, (b - 1) as nat);
        lemma_data_block(nodes, meta, b - 1);
        lemma_concat(init, data_block(nodes, meta, b - 1));
        assert forall|i: int| 0 <= i < b implies #[trigger] all.subrange(4096 * (1 + i), 4096 * (2 + i)) == data_block(
            nodes,
            meta,
            i,
        ) by {
            if i < b - 1 {
                assert(init.subrange(4096 * (1 + i), 4096 * (2 + i)) == data_block(nodes, meta, i));
            }
        }
    }
}

/// A data block is one block long and holds its nodes in their places.
proof fn lemma_data_block(nodes: spec_fn(int) -> Seq<u8>, meta: DiskIndexMeta, b: int)
    requires
        meta.wf(),
        0 <= b < meta.blocks(),
        forall|i: int| 0 <= i < meta.n ==> (#[trigger] nodes(i)).len() == meta.node_len,
    ensures
        data_block(nodes, meta, b).len() == 4096,
        forall|node: u32|
            node < meta.n && meta.block_of(node) == 1 + b ==> #[trigger] meta.node_in(data_block(nodes, meta, b), node)
                == nodes(node as int),
{
    let npb = meta.nodes_per_block as int;
    let len = meta.node_len as int;
    let n = meta.n as int;
    meta.lemma_offset(0);
    lemma_chunk_total(n, npb, b);
    lemma_mul_is_distributive_add_other_way(npb, b, 1);
    let (start, end) = chunk(n, npb, b);
    let body = packed(nodes, start, (end - start) as nat);
    lemma_mul_inequality(0, b, npb);
    lemma_packed(nodes, start, (end - start) as nat, len as nat);
    lemma_mul_inequality(end - start, npb, len);
    let block = data_block(nodes, meta, b);
    assert forall|node: u32| node < meta.n && meta.block_of(node) == 1 + b implies #[trigger] meta.node_in(
        block,
        node,
    ) == nodes(node as int) by {
        let s = node as int % npb;
        lemma_fundamental_div_mod(node as int, npb);
        lemma_mul_is_commutative(npb, b);
        lemma_mod_bound(node as int, npb);
        lemma_row_bounds(s, len, end - start);
        assert(body.subrange(s * len, s * len + len) == nodes(start + s));
        assert(block.subrange(s * len, s * len + len) =~= body.subrange(s * len, s * len + len));
    }
}

/// What was packed fits the description in the header.
proof fn lemma_index_meta(base: FloatVectors, graph: VamanaGraph)
    requires
        base.wf(),
        graph.wf(),
        base.count == graph.nodes(),
        node_size(base.dim as int, graph.r as int) <= 4096,
    ensures
        index_meta(base, graph).wf(),
        index_meta(base, graph).n == base.count,
        index_meta(base, graph).dim == base.dim,
        index_meta(base, graph).r == graph.r,
        index_meta(base, graph).medoid == graph.medoid,
        forall|i: int|
            0 <= i < base.count ==> (#[trigger] node_images(base, graph)(i)).len() == index_meta(base, graph).node_len,
{
    let len = node_size(base.dim as int, graph.r as int);
    lemma_fundamental_div_mod(4096, len);
    assert(0 <= 4096int / len <= 4096) by (nonlinear_arith)
        requires
            4 <= len <= 4096,
    ;
    assert forall|i: int| 0 <= i < base.count implies (#[trigger] node_images(base, graph)(i)).len() == index_meta(
        base,
        graph,
    ).node_len by {
        lemma_node_images(base, graph, i);
    }
}

/// Block `id` of a file.
pub open spec fn file_block(file: Seq<u8>, id: int) -> Seq<u8> {
    file.subrange(4096 * id, 4096 * (id + 1))
}

/// The block that a node was packed into holds its vector and its neighbors.
pub proof fn law_index_roundtrip(base: FloatVectors, graph: VamanaGraph, node: u32)
    requires
        base.wf(),
        graph.wf(),
        base.count == graph.nodes(),
        node_size(base.dim as int, graph.r as int) <= 4096,
        node < base.count,
    ensures
        ({
            let meta = index_meta(base, graph);
            let block = file_block(index_file(base, graph), meta.block_of(node));
            &&& index_file(base, graph).len() == 4096 * (1 + meta.blocks())
            &&& 1 <= meta.block_of(node) <= meta.blocks()
            &&& meta.vector_in(block, node) == base.row(node as int)
            &&& meta.list_in(block, node) == graph.list(node as int)
        }),
{
    lemma_file_node(base, graph, node);
    lemma_index_meta(base, graph);
    lemma_node_images(base, graph, node as int);
    law_node_roundtrip(base.row(node as int), graph.list(node as int), graph.r as nat);
}

/// The bytes of a node are in its block.
proof fn lemma_file_node(base: FloatVectors, graph: VamanaGraph, node: u32)
    requires
        base.wf(),
        graph.wf(),
        base.count == graph.nodes(),
        node_size(base.dim as int, graph.r as int) <= 4096,
        node < base.count,
    ensures
        ({
            let meta = index_meta(base, graph);
            let block = file_block(index_file(base, graph), meta.block_of(node));
            &&& index_file(base, graph).len() == 4096 * (1 + meta.blocks())
            &&& 1 <= meta.block_of(node) <= meta.blocks()
            &&& meta.node_in(block, node) == node_images(base, graph)(node as int)
        }),
{
    let meta = index_meta(base, graph);
    let nodes = node_images(base, graph);
    lemma_index_meta(base, graph);
    meta.lemma_offset(node);
    let b = meta.block_of(node) - 1;
    law_chunks_cover(meta.n as int, meta.nodes_per_block as int, node as int);
    lemma_index_prefix(nodes, meta, meta.blocks() as nat);
    lemma_data_block(nodes, meta, b);
    let file = index_prefix(nodes, meta, meta.blocks() as nat);
    assert(file.subrange(4096 * (1 + b), 4096 * (2 + b)) == data_block(nodes, meta, b));
    assert(file_block(file, 1 + b) == data_block(nodes, meta, b));
}

/// Why a header is refused.
#[derive(Debug, Clone, Copy, PartialEq, Eq)]
pub enum HeaderError {
    /// Another kind of file.
    BadMagic,
    UnsupportedVersion,
    /// Sizes that do not fit each other or the file, or an entry point that
    /// does not exist.
    Corrupt,
}

/// What a header says.
pub open spec fn header_meta(header: Seq<u8>) -> DiskIndexMeta {
    DiskIndexMeta {
        n: long_at(header, 8),
        dim: word_at(header, 16),
        r: word_at(header, 20),
        medoid: word_at(header, 24),
        node_len: word_at(header, 28),
        nodes_per_block: word_at(header, 32),
    }
}

/// What keeps a block from being the header of an index of `num_blocks`
/// blocks.
pub open spec fn header_error(header: Seq<u8>, num_blocks: u64) -> Option<HeaderError> {
    let meta = header_meta(header);
    if header.take(4) != index_magic() {
        Some(HeaderError::BadMagic)
    } else if word_at(header, 4) != INDEX_VERSION {
        Some(HeaderError::UnsupportedVersion)
    } else if !meta.wf() || meta.medoid >= meta.n || num_blocks != 1 + meta.blocks() {
        Some(HeaderError::Corrupt)
    } else {
        None
    }
}

/// Reads a header block.
pub fn parse_header(header: &[u8], num_blocks: u64) -> (r: Result<DiskIndexMeta, HeaderError>)
    requires
        header@.len() == BLOCK_SIZE,
    ensures
        match header_error(header@, num_blocks) {
            Some(e) => r == Err::<DiskIndexMeta, HeaderError>(e),
            None => r == Ok::<DiskIndexMeta, HeaderError>(header_meta(header@)),
        },
{
    let magic_ok: bool = header[0] == 78 && header[1] == 86 && header[2] == 86 && header[3] == 68;
    proof {
        let head = header@.take(4);
        assert(head[0] == header@[0] && head[1] == header@[1] && head[2] == header@[2] && head[3] == header@[3]);
        if magic_ok {
            assert(head =~= index_magic());
        }
    }
    if !magic_ok {
        return Err(HeaderError::BadMagic);
    }
    if read_u32(header, 4) != INDEX_VERSION {
        return Err(HeaderError::UnsupportedVersion);
    }
    let meta = DiskIndexMeta {
        n: read_u64(header, 8),
        dim: read_u32(header, 16),
        r: read_u32(header, 20),
        medoid: read_u32(header, 24),
        node_len: read_u32(header, 28),
        nodes_per_block: read_u32(header, 32),
    };
    let expect: u64 = meta.dim as u64 * 4 + 4 + meta.r as u64 * 4;
    if meta.node_len as u64 != expect || expect > BLOCK_SIZE as u64 || meta.nodes_per_block as u64 != BLOCK_SIZE as u64
        / expect || meta.medoid as u64 >= meta.n {
        return Err(HeaderError::Corrupt);
    }
    proof {
        meta.lemma_offset(0);
    }
    if num_blocks as u128 != 1 + meta.data_blocks() as u128 {
        return Err(HeaderError::Corrupt);
    }
    Ok(meta)
}

/// The header that was written is accepted and says what was written.
pub proof fn law_header_roundtrip(base: FloatVectors, graph: VamanaGraph)
    requires
        base.wf(),
        graph.wf(),
        base.count == graph.nodes(),
        node_size(base.dim as int, graph.r as int) <= 4096,
        graph.medoid < base.count,
    ensures
        ({
            let file = index_file(base, graph);
            &&& file.len() % 4096 == 0
            &&& header_meta(file_block(file, 0)) == index_meta(base, graph)
            &&& file.len() / 4096 <= u64::MAX ==> header_error(file_block(file, 0), (file.len() / 4096) as u64) is None
        }),
{
    let meta = index_meta(base, graph);
    let nodes = node_images(base, graph);
    lemma_index_meta(base, graph);
    meta.lemma_offset(0);
    lemma_chunk_total(meta.n as int, meta.nodes_per_block as int, 0);
    lemma_index_prefix(nodes, meta, meta.blocks() as nat);
    let h = file_block(index_file(base, graph), 0);
    assert(h == meta.header());
    lemma_header(meta);
}

proof fn lemma_header(meta: DiskIndexMeta)
    ensures
        meta.header().len() == 4096,
        header_meta(meta.header()) == meta,
        meta.header().take(4) == index_magic(),
        word_at(meta.header(), 4) == INDEX_VERSION,
{
    reveal(DiskIndexMeta::header);
    let s4 = index_magic();
    let s8 = s4 + le32(INDEX_VERSION);
    let s16 = s8 + le64(meta.n);
    let s20 = s16 + le32(meta.dim);
    let s24 = s20 + le32(meta.r);
    let s28 = s24 + le32(meta.medoid);
    let s32 = s28 + le32(meta.node_len);
    let s36 = s32 + le32(meta.nodes_per_block);
    let h = s36 + zeros(4060);
    assert(h == meta.header());
    lemma_concat(s4, le32(INDEX_VERSION));
    lemma_concat(s8, le64(meta.n));
    lemma_concat(s16, le32(meta.dim));
    lemma_concat(s20, le32(meta.r));
    lemma_concat(s24, le32(meta.medoid));
    lemma_concat(s28, le32(meta.node_len));
    lemma_concat(s32, le32(meta.nodes_per_block));
    lemma_concat(s36, zeros(4060));
    assert(h.take(4) == h.subrange(0, 4));
    assert(s4.subrange(0, 4) =~= s4);
    law_word_roundtrip(INDEX_VERSION, h, 4);
    law_long_roundtrip(meta.n, h, 8);
    law_word_roundtrip(meta.dim, h, 16);
    law_word_roundtrip(meta.r, h, 20);
    law_word_roundtrip(meta.medoid, h, 24);
    law_word_roundtrip(meta.node_len, h, 28);
    law_word_roundtrip(meta.nodes_per_block, h, 32);
}

/// A number within a piece of bytes stands as far into the whole.
proof fn lemma_word_in_piece(s: Seq<u8>, from: int, to: int, at: int)
    requires
        0 <= from <= to <= s.len(),
        0 <= at,
        at + 4 <= to - from,
    ensures
        word_at(s.subrange(from, to), at) == word_at(s, from + at),
{
}

/// A node's bytes are its elements, its degree, its neighbors and zeros for
/// the slots that are free, in this order.
pub proof fn law_node_bytes_are_laid_out(vector: Seq<u32>, list: Seq<u32>, r: nat)
    requires
        list.len() <= r <= u32::MAX,
    ensures
        ({
            let image = node_image(vector, list, r);
            let dim = vector.len() as int;
            &&& image.len() == 4 * dim + 4 + 4 * r
            &&& forall|i: int| 0 <= i < dim ==> word_at(image, 4 * i) == #[trigger] vector[i]
            &&& word_at(image, 4 * dim) == list.len()
            &&& forall|j: int| 0 <= j < list.len() ==> word_at(image, 4 * dim + 4 + 4 * j) == #[trigger] list[j]
            &&& forall|k: int| 4 * dim + 4 + 4 * list.len() <= k < image.len() ==> #[trigger] image[k] == 0
        }),
{
    let image = node_image(vector, list, r);
    let dim = vector.len() as int;
    lemma_node_image_len(vector, list, r);
    law_node_roundtrip(vector, list, r);
    let s1 = le_words(vector);
    let s2 = s1 + le32(list.len() as u32);
    let s3 = s2 + le_words(list);
    lemma_concat(s1, le32(list.len() as u32));
    lemma_concat(s2, le_words(list));
    lemma_concat(s3, zeros((4 * (r - list.len())) as nat));
    law_word_roundtrip(list.len() as u32, image, 4 * dim);
    assert forall|i: int| 0 <= i < dim implies word_at(image, 4 * i) == #[trigger] vector[i] by {
        assert(node_vector(image, vector.len())[i] == vector[i]);
    }
    assert forall|j: int| 0 <= j < list.len() implies word_at(image, 4 * dim + 4 + 4 * j) == #[trigger] list[j] by {
        assert(node_list(image, vector.len(), r)[j] == list[j]);
    }
}

/// A node is read in place: its elements first, behind them its degree, and
/// then as many neighbors as the degree says, but no more than there are
/// slots.
pub proof fn law_nodes_are_read_in_place(node: Seq<u8>, dim: nat, r: nat, i: int, j: int)
    ensures
        node_vector(node, dim).len() == dim,
        0 <= i < dim ==> node_vector(node, dim)[i] == word_at(node, 4 * i),
        node_list(node, dim, r).len() == (if word_at(node, 4 * dim as int) < r {
            word_at(node, 4 * dim as int) as nat
        } else {
            r
        }),
        0 <= j < node_list(node, dim, r).len() ==> node_list(node, dim, r)[j] == word_at(
            node,
            4 * dim as int + 4 + 4 * j,
        ),
{
}

/// Nodes are packed into blocks of 4096 bytes behind the header, as many to a
/// block as fit, none across two blocks.
pub proof fn law_nodes_have_their_places(meta: DiskIndexMeta, block: Seq<u8>, node: u32)
    requires
        meta.wf(),
        block.len() == 4096,
    ensures
        ({
            let len = 4 * meta.dim + 4 + 4 * meta.r;
            let per = 4096int / len;
            let slot = node as int % per;
            &&& meta.node_len == len
            &&& meta.nodes_per_block == per
            &&& 1 <= per
            &&& per * len <= 4096 < (per + 1) * len
            &&& meta.block_of(node) == 1 + node as int / per
            &&& meta.offset_of(node) == slot * len
            &&& slot * len + len <= 4096
            &&& meta.node_in(block, node) == block.subrange(slot * len, slot * len + len)
            &&& meta.vector_in(block, node) == words_at(block, slot * len, meta.dim as nat)
            &&& (meta.blocks() - 1) * per < meta.n <= meta.blocks() * per
        }),
{
    let len = meta.node_len as int;
    let per = meta.nodes_per_block as int;
    meta.lemma_offset(node);
    lemma_fundamental_div_mod(4096, len);
    lemma_mod_bound(4096, len);
    lemma_mul_is_commutative(len, per);
    lemma_mul_is_distributive_add_other_way(len, per, 1);
    let slot = node as int % per;
    let piece = meta.node_in(block, node);
    assert forall|i: int| 0 <= i < meta.dim implies #[trigger] meta.vector_in(block, node)[i] == words_at(
        block,
        slot * len,
        meta.dim as nat,
    )[i] by {
        lemma_word_in_piece(block, slot * len, slot * len + len, 4 * i);
        assert(word_at(piece, 4 * i) == word_at(block, slot * len + 4 * i));
    }
    assert(meta.vector_in(block, node) =~= words_at(block, slot * len, meta.dim as nat));
    let n = meta.n as int;
    lemma_chunk_total(n, per, meta.blocks());
    if meta.blocks() >= 1 {
        lemma_chunk_total(n, per, meta.blocks() - 1);
    } else {
        lemma_chunk_total(n, per, 0);
        assert(meta.blocks() == 0) by {
            lemma_fundamental_div_mod(n + per - 1, per);
            assert(meta.blocks() >= 0) by (nonlinear_arith)
                requires
                    n + per - 1 == per * meta.blocks() + (n + per - 1) % per,
                    0 <= n,
                    per >= 1,
                    (n + per - 1) % per < per,
            ;
        }
        assert((0 - 1) * per < 0) by (nonlinear_arith)
            requires
                per >= 1,
        ;
    }
}

/// Every node of an index stands at its place in the file: block after block
/// behind the header, slot after slot in its block.
pub proof fn law_index_file_layout(base: FloatVectors, graph: VamanaGraph, node: u32)
    requires
        base.wf(),
        graph.wf(),
        base.count == graph.nodes(),
        4 * base.dim + 4 + 4 * graph.r <= 4096,
        node < base.count,
    ensures
        ({
            let file = index_file(base, graph);
            let len = 4 * base.dim + 4 + 4 * graph.r;
            let per = 4096int / len;
            let at = 4096 * (1 + node as int / per) + (node as int % per) * len;
            &&& file.len() % 4096 == 0
            &&& 0 <= at
            &&& at + len <= file.len()
            &&& file.subrange(at, at + len) == node_image(
                base.row(node as int),
                graph.list(node as int),
                graph.r as nat,
            )
        }),
{
    let meta = index_meta(base, graph);
    let file = index_file(base, graph);
    let block = file_block(file, meta.block_of(node));
    lemma_file_node(base, graph, node);
    lemma_index_meta(base, graph);
    meta.lemma_offset(node);
    let b = meta.block_of(node);
    let off = meta.offset_of(node);
    let len = meta.node_len as int;
    let at = 4096 * b + off;
    assert(block.len() == 4096);
    assert(file.subrange(at, at + len) =~= block.subrange(off, off + len));
}

/// What is left of a block behind its nodes is zeros.
pub proof fn law_unused_bytes_are_zero(base: FloatVectors, graph: VamanaGraph, b: int, k: int)
    requires
        base.wf(),
        graph.wf(),
        base.count == graph.nodes(),
        4 * base.dim + 4 + 4 * graph.r <= 4096,
        ({
            let len = 4 * base.dim + 4 + 4 * graph.r;
            let per = 4096int / len;
            &&& 0 <= b < index_meta(base, graph).blocks()
            &&& b * per < base.count
            &&& (if (b + 1) * per < base.count { per } else { base.count - b * per }) * len <= k < 4096
        }),
    ensures
        index_file(base, graph)[4096 * (1 + b) + k] == 0,
{
    let meta = index_meta(base, graph);
    let nodes = node_images(base, graph);
    let file = index_file(base, graph);
    let len = meta.node_len as int;
    let per = meta.nodes_per_block as int;
    let n = meta.n as int;
    lemma_index_meta(base, graph);
    meta.lemma_offset(0);
    lemma_index_prefix(nodes, meta, meta.blocks() as nat);
    lemma_mul_is_distributive_add_other_way(per, b, 1);
    let (start, end) = chunk(n, per, b);
    let body = packed(nodes, start, (end - start) as nat);
    assert(0 <= start) by (nonlinear_arith)
        requires
            start == b * per,
            b >= 0,
            per >= 1,
    ;
    lemma_packed(nodes, start, (end - start) as nat, len as nat);
    let block = data_block(nodes, meta, b);
    assert(file.subrange(4096 * (1 + b), 4096 * (2 + b)) == block);
    lemma_data_block(nodes, meta, b);
    assert(block[k] == 0);
    assert(file.subrange(4096 * (1 + b), 4096 * (2 + b))[k] == file[4096 * (1 + b) + k]);
}

/// The header holds its numbers at these places, and zeros behind them.
pub proof fn law_header_layout(meta: DiskIndexMeta)
    ensures
        ({
            let h = meta.header();
            &&& h.len() == 4096
            &&& h[0] == 78 && h[1] == 86 && h[2] == 86 && h[3] == 68
            &&& word_at(h, 4) == 1
            &&& long_at(h, 8) == meta.n
            &&& word_at(h, 16) == meta.dim
            &&& word_at(h, 20) == meta.r
            &&& word_at(h, 24) == meta.medoid
            &&& word_at(h, 28) == meta.node_len
            &&& word_at(h, 32) == meta.nodes_per_block
            &&& forall|k: int| 36 <= k < 4096 ==> #[trigger] h[k] == 0
        }),
{
    lemma_header(meta);
    let h = meta.header();
    let head = h.take(4);
    assert(head[0] == h[0] && head[1] == h[1] && head[2] == h[2] && head[3] == h[3]);
    assert forall|k: int| 36 <= k < 4096 implies #[trigger] h[k] == 0 by {
        reveal(DiskIndexMeta::header);
    }
}

/// What the header of a packed index says: the shape of the vectors and the
/// graph, and how nodes are packed. The file starts with it.
pub proof fn law_index_says_what_it_holds(base: FloatVectors, graph: VamanaGraph)
    requires
        base.wf(),
        graph.wf(),
        base.count == graph.nodes(),
        4 * base.dim + 4 + 4 * graph.r <= 4096,
    ensures
        ({
            let meta = index_meta(base, graph);
            &&& meta.n == base.count
            &&& meta.dim == base.dim
            &&& meta.r == graph.r
            &&& meta.medoid == graph.medoid
            &&& meta.node_len == 4 * base.dim + 4 + 4 * graph.r
            &&& meta.nodes_per_block == 4096int / (4 * base.dim + 4 + 4 * graph.r)
            &&& index_file(base, graph).take(4096) == meta.header()
        }),
{
    let meta = index_meta(base, graph);
    lemma_index_meta(base, graph);
    meta.lemma_offset(0);
    lemma_chunk_total(meta.n as int, meta.nodes_per_block as int, 0);
    lemma_index_prefix(node_images(base, graph), meta, meta.blocks() as nat);
    assert(index_file(base, graph).take(4096) =~= index_file(base, graph).subrange(0, 4096));
}

/// A header is refused for the first of these reasons: it does not start as
/// index files do; it has another version; or its numbers do not fit each
/// other, the file, or a block, or the entry point does not exist. Any other
/// header is accepted.
pub proof fn law_header_refusals(header: Seq<u8>, num_blocks: u64)
    requires
        header.len() == 4096,
    ensures
        ({
            let e = header_error(header, num_blocks);
            let n = long_at(header, 8) as int;
            let len = 4 * word_at(header, 16) + 4 + 4 * word_at(header, 20);
            let per = 4096int / len;
            let strange = !(header[0] == 78 && header[1] == 86 && header[2] == 86 && header[3] == 68);
            let foreign = !strange && word_at(header, 4) != 1;
            let sound = {
                &&& word_at(header, 28) == len
                &&& len <= 4096
                &&& word_at(header, 32) == per
                &&& word_at(header, 24) < n
                &&& num_blocks == 1 + (n + per - 1) / per
            };
            &&& e == Some(HeaderError::BadMagic) <==> strange
            &&& e == Some(HeaderError::UnsupportedVersion) <==> foreign
            &&& e == Some(HeaderError::Corrupt) <==> !strange && !foreign && !sound
            &&& e is None <==> !strange && !foreign && sound
        }),
{
    let head = header.take(4);
    assert(head[0] == header[0] && head[1] == header[1] && head[2] == header[2] && head[3] == header[3]);
    if header[0] == 78 && header[1] == 86 && header[2] == 86 && header[3] == 68 {
        assert(head =~= index_magic());
    }
}

} // verus!
