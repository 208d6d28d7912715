//! Frozen Vamana graph: fixed-stride adjacency, ready to be copied into the
//! disk layout (one node's neighbors always fit its block).

use vstd::arithmetic::mul::{lemma_mul_inequality, lemma_mul_is_commutative};
use vstd::prelude::*;

use crate::bytes::{
    law_long_roundtrip, law_word_roundtrip, law_words_roundtrip, lemma_concat, le32, le64, le_words, long_at, push_u32, push_u64,
    push_words, read_u32, read_u64, read_words, word_at, words_at,
};
use crate::beam::{answered_by, in_range, lemma_seeded, lemma_trace_weaken, pairs_of, Beam};
use crate::dataset::lemma_row_bounds;
use crate::scorer::{covers_all, covers_each, scores, RouteScorer};
use crate::search::{beam_search, SearchScratch};

verus! {

/// A graph file starts with these bytes.
pub open spec fn graph_magic() -> Seq<u8> {
    seq![78u8, 86u8, 86u8, 71u8]
}

/// The version of the graph format.
pub const GRAPH_VERSION: u32 = 1;

/// The sum of the degrees.
pub open spec fn degree_total(degrees: Seq<u8>) -> nat
    decreases degrees.len(),
{
    if degrees.len() == 0 {
        0
    } else {
        degree_total(degrees.drop_last()) + degrees.last() as nat
    }
}

/// An adjacency with room for `r` neighbors per node.
pub struct VamanaGraph {
    pub r: usize,
    pub medoid: u32,
    /// Out-degree per node (<= r).
    pub degrees: Vec<u8>,
    /// Fixed stride `r` per node. [`VamanaGraph::from_adjacency`] pads the
    /// slots past the degree with zeros; nothing reads them.
    pub neighbors: Vec<u32>,
}

/// Why bytes are not a graph file.
#[derive(Debug, Clone, Copy, PartialEq, Eq)]
pub enum GraphError {
    /// The bytes end before the graph does.
    UnexpectedEof,
    /// Another kind of file.
    NotAGraphFile,
    UnsupportedVersion,
    /// No room for neighbors, too much room, or an entry point that does not
    /// exist.
    CorruptHeader,
    /// A node with more neighbors than slots.
    CorruptDegrees,
}

/// No degree exceeds `r`.
pub open spec fn degrees_fit(degrees: Seq<u8>, r: int) -> bool {
    forall|i: int| 0 <= i < degrees.len() ==> #[trigger] degrees[i] <= r
}

/// What keeps bytes from being a graph file.
pub open spec fn graph_error(bytes: Seq<u8>) -> Option<GraphError> {
    let n = long_at(bytes, 8);
    let r = word_at(bytes, 16);
    if bytes.len() < 24 {
        Some(GraphError::UnexpectedEof)
    } else if bytes.take(4) != graph_magic() {
        Some(GraphError::NotAGraphFile)
    } else if word_at(bytes, 4) != GRAPH_VERSION {
        Some(GraphError::UnsupportedVersion)
    } else if r == 0 || r > 255 || word_at(bytes, 20) >= n {
        Some(GraphError::CorruptHeader)
    } else if bytes.len() < 24 + n + 4 * (n * r) {
        Some(GraphError::UnexpectedEof)
    } else if !degrees_fit(bytes.subrange(24, 24 + n), r as int) {
        Some(GraphError::CorruptDegrees)
    } else {
        None
    }
}

impl VamanaGraph {
    /// How many nodes there are.
    pub open spec fn nodes(&self) -> nat {
        self.degrees@.len()
    }

    /// Every node has its `r` slots.
    pub open spec fn shaped(&self) -> bool {
        &&& self.neighbors@.len() == self.nodes() * self.r
        &&& self.neighbors@.len() <= usize::MAX
    }

    /// Every node has its slots, and no more neighbors than slots.
    pub open spec fn wf(&self) -> bool {
        &&& self.shaped()
        &&& degrees_fit(self.degrees@, self.r as int)
    }

    /// The neighbors of a node.
    pub open spec fn list(&self, id: int) -> Seq<u32> {
        self.neighbors@.subrange(id * self.r, id * self.r + self.degrees@[id])
    }

    /// The neighbors of a node are its list.
    pub open spec fn adjacency(&self) -> spec_fn(u32, Seq<u32>) -> bool {
        |id: u32, l: Seq<u32>| l == self.list(id as int)
    }

    /// A search can go anywhere in the graph: lists fit their slots, and
    /// every neighbor and the entry point exist.
    pub open spec fn navigable(&self) -> bool {
        &&& self.wf()
        &&& self.medoid < self.nodes()
        &&& forall|i: int| 0 <= i < self.nodes() ==> in_range(#[trigger] self.list(i), self.nodes())
    }

    /// The bytes of the graph's file.
    pub open spec fn file(&self) -> Seq<u8> {
        graph_magic() + le32(GRAPH_VERSION) + le64(self.nodes() as u64) + le32(self.r as u32) + le32(self.medoid)
            + self.degrees@ + le_words(self.neighbors@)
    }

    /// Freezes an adjacency.
    pub fn from_adjacency(r: usize, medoid: u32, adj: Vec<Vec<u32>>) -> (g: Self)
        requires
            r <= 255,
            adj@.len() * r <= usize::MAX,
            forall|i: int| 0 <= i < adj@.len() ==> (#[trigger] adj@[i])@.len() <= r,
        ensures
            g.wf(),
            g.r == r,
            g.medoid == medoid,
            g.nodes() == adj@.len(),
            forall|i: int| 0 <= i < adj@.len() ==> g.list(i) == (#[trigger] adj@[i])@,
            forall|i: int, j: int|
                0 <= i < adj@.len() && adj@[i]@.len() <= j < r ==> #[trigger] g.neighbors@[i * r + j] == 0,
    {
        let mut degrees: Vec<u8> = Vec::new();
        let mut neighbors: Vec<u32> = Vec::new();
        let mut i: usize = 0;
        while i < adj.len()
            invariant
                i <= adj@.len(),
                r <= 255,
                adj@.len() * r <= usize::MAX,
                forall|k: int| 0 <= k < adj@.len() ==> (#[trigger] adj@[k])@.len() <= r,
                degrees@.len() == i,
                neighbors@.len() == i * r,
                forall|k: int| 0 <= k < i ==> #[trigger] degrees@[k] == adj@[k]@.len(),
                forall|k: int, j: int|
                    0 <= k < i && 0 <= j < r ==> #[trigger] neighbors@[k * r + j] == (if j < adj@[k]@.len() {
                        adj@[k]@[j]
                    } else {
                        0
                    }),
            decreases adj@.len() - i,
        {
            let list = &adj[i];
            assert(list@ == adj@[i as int]@);
            let ghost before = neighbors@;
            proof {
                lemma_row_bounds(i as int, r as int, adj@.len() as int);
            }
            degrees.push(list.len() as u8);
            let mut j: usize = 0;
            while j < r
                invariant
                    j <= r,
                    list@.len() <= r,
                    before.len() == i * r,
                    neighbors@.len() == before.len() + j,
                    forall|k: int| 0 <= k < before.len() ==> neighbors@[k] == before[k],
                    forall|k: int|
                        0 <= k < j ==> #[trigger] neighbors@[i * r + k] == (if k < list@.len() {
                            list@[k]
                        } else {
                            0
                        }),
                decreases r - j,
            {
                let x: u32 = if j < list.len() {
                    list[j]
                } else {
                    0
                };
                neighbors.push(x);
                j += 1;
            }
            proof {
                assert forall|k: int, j: int| 0 <= k < i + 1 && 0 <= j < r implies #[trigger] neighbors@[k * r + j] == (
                if j < adj@[k]@.len() {
                    adj@[k]@[j]
                } else {
                    0
                }) by {
                    if k < i {
                        lemma_row_bounds(k, r as int, i as int);
                        assert(neighbors@[k * r + j] == before[k * r + j]);
                    }
                }
            }
            i += 1;
        }
        let g = VamanaGraph { r, medoid, degrees, neighbors };
        proof {
            assert forall|i: int| 0 <= i < adj@.len() implies g.list(i) == (#[trigger] adj@[i])@ by {
                lemma_row_bounds(i, r as int, adj@.len() as int);
                assert(g.degrees@[i] == adj@[i]@.len());
                assert forall|j: int| 0 <= j < adj@[i]@.len() implies g.list(i)[j] == adj@[i]@[j] by {
                    assert(g.neighbors@[i * r + j] == adj@[i]@[j]);
                }
                assert(g.list(i) =~= adj@[i]@);
            }
        }
        g
    }

    pub fn num_nodes(&self) -> (n: usize)
        ensures
            n == self.nodes(),
    {
        self.degrees.len()
    }

    /// Max out-degree.
    pub fn r(&self) -> (r: usize)
        ensures
            r == self.r,
    {
        self.r
    }

    /// The neighbors of a node.
    pub fn neighbors_of(&self, id: u32) -> (list: &[u32])
        requires
            self.wf(),
            id < self.nodes(),
        ensures
            list@ == self.list(id as int),
            list@.len() == self.degrees@[id as int],
            list@.len() <= self.r,
    {
        let i: usize = id as usize;
        proof {
            lemma_row_bounds(id as int, self.r as int, self.nodes() as int);
            assert(self.degrees@[id as int] <= self.r);
        }
        vstd::slice::slice_subrange(self.neighbors.as_slice(), i * self.r, i * self.r + self.degrees[i] as usize)
    }

    /// Average degree, as the sum of the degrees over the number of nodes.
    pub fn avg_degree(&self) -> (a: (u64, usize))
        requires
            degree_total(self.degrees@) <= u64::MAX,
        ensures
            a.0 == degree_total(self.degrees@),
            a.1 == self.nodes(),
    {
        let mut sum: u64 = 0;
        let mut i: usize = 0;
        assert(self.degrees@.take(0) =~= Seq::empty());
        while i < self.degrees.len()
            invariant
                i <= self.degrees@.len(),
                degree_total(self.degrees@) <= u64::MAX,
                sum == degree_total(self.degrees@.take(i as int)),
            decreases self.degrees@.len() - i,
        {
            proof {
                lemma_degree_total_prefix(self.degrees@, i + 1);
                assert(self.degrees@.take(i + 1).drop_last() =~= self.degrees@.take(i as int));
            }
            sum += self.degrees[i] as u64;
            i += 1;
        }
        assert(self.degrees@.take(i as int) =~= self.degrees@);
        (sum, self.degrees.len())
    }

    /// Whether every list fits its slots and names only nodes that exist, and
    /// the entry point exists.
    pub fn is_navigable(&self) -> (b: bool)
        requires
            self.shaped(),
        ensures
            b == self.navigable(),
    {
        let n: usize = self.degrees.len();
        if self.medoid as usize >= n {
            return false;
        }
        let mut i: usize = 0;
        while i < n
            invariant
                i <= n,
                n == self.nodes(),
                self.shaped(),
                forall|k: int| 0 <= k < i ==> #[trigger] self.degrees@[k] <= self.r,
                forall|k: int| 0 <= k < i ==> in_range(#[trigger] self.list(k), n as nat),
            decreases n - i,
        {
            let deg: usize = self.degrees[i] as usize;
            if deg > self.r {
                return false;
            }
            proof {
                lemma_row_bounds(i as int, self.r as int, n as int);
            }
            let start: usize = i * self.r;
            let mut j: usize = 0;
            while j < deg
                invariant
                    j <= deg <= self.r,
                    i < n,
                    n == self.nodes(),
                    self.shaped(),
                    start == i * self.r,
                    start + self.r <= self.neighbors@.len(),
                    deg == self.degrees@[i as int],
                    self.list(i as int).len() == deg,
                    forall|k: int| 0 <= k < j ==> #[trigger] self.list(i as int)[k] < n,
                decreases deg - j,
            {
                assert(self.list(i as int)[j as int] == self.neighbors@[start + j]);
                if self.neighbors[start + j] as usize >= n {
                    assert(!in_range(self.list(i as int), n as nat));
                    return false;
                }
                j += 1;
            }
            i += 1;
        }
        true
    }

    /// Beam search over the graph. Returns (top-k ascending by the scorer's
    /// distance, expanded nodes).
    pub fn search<S: RouteScorer>(
        &self,
        scorer: &S,
        query: &[u32],
        k: usize,
        ef: usize,
        scratch: &mut SearchScratch,
    ) -> (r: (Vec<(u32, u32)>, usize))
        requires
            self.navigable(),
            ef > 0,
            old(scratch).wf(),
            self.nodes() <= old(scratch).nodes(),
            covers_all(scorer, query@, self.nodes()),
        ensures
            final(scratch).wf(),
            final(scratch).nodes() == old(scratch).nodes(),
            exists|rounds: Seq<Seq<Seq<u32>>>|
                #[trigger] Beam::seeded(self.medoid, scorer.distance(query@, self.medoid)).settles(
                    ef as nat,
                    1,
                    scores(scorer, query@),
                    rounds,
                    self.adjacency(),
                    final(scratch)@,
                ),
            r.0@ == pairs_of(final(scratch)@.pool).take(
                if k < final(scratch)@.pool.len() { k as int } else { final(scratch)@.pool.len() as int },
            ),
            r.1 == final(scratch)@.expanded.len(),
    {
        let ghost n = self.nodes();
        let ghost score = scores(scorer, query@);
        let ghost start = Beam::seeded(self.medoid, score(self.medoid));
        let neighbors = |id: u32| -> (v: Vec<u32>)
            requires
                self.navigable(),
            ensures
                v@ == (if id < self.nodes() { self.list(id as int) } else { Seq::empty() }),
            { self.copy_neighbors(id) };
        assert forall|id: u32, v: Vec<u32>| #[trigger] call_ensures(neighbors, (id,), v) implies in_range(
            v@,
            scratch.nodes(),
        ) && covers_each(scorer, query@, v@) by {
            assert(id < n ==> in_range(self.list(id as int), n));
            assert forall|j: int| 0 <= j < v@.len() implies #[trigger] v@[j] < n by {}
        }
        let hops: usize = beam_search(scorer, query, self.medoid, ef, &neighbors, scratch);
        proof {
            let rounds = choose|rounds: Seq<Seq<Seq<u32>>>|
                #[trigger] start.settles(ef as nat, 1, score, rounds, answered_by(neighbors), scratch@);
            assert forall|id: u32, l: Seq<u32>| id < n && #[trigger] answered_by(neighbors)(
                id,
                l,
            ) implies self.adjacency()(id, l) && in_range(l, n) by {
                let v = choose|v: Vec<u32>| v@ == l && #[trigger] call_ensures(neighbors, (id,), v);
                assert(in_range(self.list(id as int), n));
            }
            lemma_seeded(self.medoid, score(self.medoid), score);
            lemma_trace_weaken(start, ef as nat, 1, score, rounds, answered_by(neighbors), self.adjacency(), n);
            assert(start.settles(ef as nat, 1, score, rounds, self.adjacency(), scratch@));
        }
        (scratch.top_k(k), hops)
    }

    /// A copy of the neighbors of a node; a node that does not exist has none.
    fn copy_neighbors(&self, id: u32) -> (v: Vec<u32>)
        requires
            self.navigable(),
        ensures
            v@ == (if id < self.nodes() { self.list(id as int) } else { Seq::empty() }),
    {
        if (id as usize) < self.degrees.len() {
            vstd::slice::slice_to_vec(self.neighbors_of(id))
        } else {
            Vec::new()
        }
    }

    /// The content of the graph's file.
    pub fn save(&self) -> (bytes: Vec<u8>)
        requires
            self.r <= 255,
        ensures
            bytes@ == self.file(),
    {
        let mut out: Vec<u8> = Vec::new();
        out.push(78);
        out.push(86);
        out.push(86);
        out.push(71);
        push_u32(&mut out, GRAPH_VERSION);
        push_u64(&mut out, self.degrees.len() as u64);
        push_u32(&mut out, self.r as u32);
        push_u32(&mut out, self.medoid);
        out.extend_from_slice(self.degrees.as_slice());
        push_words(&mut out, self.neighbors.as_slice());
        assert(out@ =~= self.file());
        out
    }

    /// Reads the content of a graph file. Whatever follows the graph is
    /// ignored.
    pub fn load(bytes: &[u8]) -> (r: Result<Self, GraphError>)
        ensures
            match graph_error(bytes@) {
                Some(e) => r is Err && r->Err_0 == e,
                None => {
                    let n = long_at(bytes@, 8);
                    let stride = word_at(bytes@, 16);
                    &&& r is Ok
                    &&& r->Ok_0.wf()
                    &&& r->Ok_0.nodes() == n
                    &&& r->Ok_0.r == stride
                    &&& r->Ok_0.medoid == word_at(bytes@, 20)
                    &&& r->Ok_0.degrees@ == bytes@.subrange(24, 24 + n)
                    &&& r->Ok_0.neighbors@ == words_at(bytes@, 24 + n, (n * stride) as nat)
                },
            },
    {
        assert(bytes@.len() == bytes.len());
        if bytes.len() < 24 {
            return Err(GraphError::UnexpectedEof);
        }
        let magic_ok: bool = bytes[0] == 78 && bytes[1] == 86 && bytes[2] == 86 && bytes[3] == 71;
        proof {
            let head = bytes@.take(4);
            assert(head[0] == bytes@[0] && head[1] == bytes@[1] && head[2] == bytes@[2] && head[3] == bytes@[3]);
            if magic_ok {
                assert(head =~= graph_magic());
            }
        }
        if !magic_ok {
            return Err(GraphError::NotAGraphFile);
        }
        if read_u32(bytes, 4) != GRAPH_VERSION {
            return Err(GraphError::UnsupportedVersion);
        }
        let n: u64 = read_u64(bytes, 8);
        let r: u32 = read_u32(bytes, 16);
        let medoid: u32 = read_u32(bytes, 20);
        if r == 0 || r > 255 || medoid as u64 >= n {
            return Err(GraphError::CorruptHeader);
        }
        proof {
            lemma_mul_inequality(r as int, 255, n as int);
            lemma_mul_is_commutative(n as int, r as int);
            lemma_mul_inequality(1, r as int, n as int);
        }
        if (bytes.len() as u128) < 24 + n as u128 + 4 * (n as u128 * r as u128) {
            return Err(GraphError::UnexpectedEof);
        }
        let count: usize = n as usize;
        let stride: usize = r as usize;
        let degrees = vstd::slice::slice_to_vec(vstd::slice::slice_subrange(bytes, 24, 24 + count));
        let mut i: usize = 0;
        while i < degrees.len()
            invariant
                i <= degrees@.len(),
                r <= 255,
                bytes@.len() >= 24 + n,
                degrees@ == bytes@.subrange(24, 24 + n),
                graph_error(bytes@) == (if degrees_fit(degrees@, r as int) {
                    None::<GraphError>
                } else {
                    Some(GraphError::CorruptDegrees)
                }),
                forall|j: int| 0 <= j < i ==> #[trigger] degrees@[j] <= r,
            decreases degrees@.len() - i,
        {
            if degrees[i] as u32 > r {
                assert(!degrees_fit(degrees@, r as int));
                return Err(GraphError::CorruptDegrees);
            }
            i += 1;
        }
        let neighbors = read_words(bytes, 24 + count, count * stride);
        assert(neighbors@.len() == neighbors.len());
        Ok(VamanaGraph { r: stride, medoid, degrees, neighbors })
    }
}

proof fn lemma_degree_total_prefix(degrees: Seq<u8>, i: int)
    requires
        0 <= i <= degrees.len(),
    ensures
        degree_total(degrees.take(i)) <= degree_total(degrees),
    decreases degrees.len(),
{
    if i == degrees.len() {
        assert(degrees.take(i) =~= degrees);
    } else {
        lemma_degree_total_prefix(degrees.drop_last(), i);
        assert(degrees.drop_last().take(i) =~= degrees.take(i));
    }
}

/// Loading what was saved gives back the graph, whatever follows it in the
/// file.
pub proof fn law_save_load_roundtrip(g: VamanaGraph, rest: Seq<u8>)
    requires
        g.wf(),
        1 <= g.r <= 255,
        g.medoid < g.nodes(),
        g.nodes() <= u64::MAX,
    ensures
        graph_error(g.file() + rest) is None,
        long_at(g.file() + rest, 8) == g.nodes(),
        word_at(g.file() + rest, 16) == g.r,
        word_at(g.file() + rest, 20) == g.medoid,
        (g.file() + rest).subrange(24, 24 + g.nodes() as int) == g.degrees@,
        words_at(g.file() + rest, 24 + g.nodes() as int, g.nodes() * g.r as nat) == g.neighbors@,
{
    let n = g.nodes() as int;
    let s4 = graph_magic();
    let s8 = s4 + le32(GRAPH_VERSION);
    let s16 = s8 + le64(n as u64);
    let s20 = s16 + le32(g.r as u32);
    let s24 = s20 + le32(g.medoid);
    let mid = s24 + g.degrees@;
    let all = mid + le_words(g.neighbors@);
    let f = all + rest;
    assert(f == g.file() + rest);
    lemma_concat(s4, le32(GRAPH_VERSION));
    lemma_concat(s8, le64(n as u64));
    lemma_concat(s16, le32(g.r as u32));
    lemma_concat(s20, le32(g.medoid));
    lemma_concat(s24, g.degrees@);
    lemma_concat(mid, le_words(g.neighbors@));
    lemma_concat(all, rest);
    assert(f.take(4) == f.subrange(0, 4));
    assert(s4.subrange(0, 4) =~= s4);
    law_word_roundtrip(GRAPH_VERSION, f, 4);
    law_long_roundtrip(n as u64, f, 8);
    law_word_roundtrip(g.r as u32, f, 16);
    law_word_roundtrip(g.medoid, f, 20);
    law_words_roundtrip(g.neighbors@, f, 24 + n);
}

/// Neighbor `j` of a node stands in slot `j` of the node's slots, and it has
/// as many neighbors as its degree says.
pub proof fn law_lists_stand_in_their_slots(g: VamanaGraph, id: int, j: int)
    requires
        g.wf(),
        0 <= id < g.nodes(),
    ensures
        g.list(id).len() == g.degrees@[id],
        0 <= j < g.degrees@[id] ==> g.list(id)[j] == g.neighbors@[id * g.r + j],
{
    lemma_row_bounds(id, g.r as int, g.nodes() as int);
    assert(g.degrees@[id] <= g.r);
}

/// A search can go anywhere exactly where the entry point exists, no node has
/// more neighbors than slots, and every neighbor exists.
pub proof fn law_navigable_graphs_name_only_their_nodes(g: VamanaGraph)
    requires
        g.shaped(),
    ensures
        g.navigable() <==> g.medoid < g.degrees@.len() && (forall|i: int|
            0 <= i < g.degrees@.len() ==> #[trigger] g.degrees@[i] <= g.r) && (forall|i: int, j: int|
            0 <= i < g.degrees@.len() && 0 <= j < g.degrees@[i] ==> #[trigger] g.neighbors@[i * g.r + j]
                < g.degrees@.len()),
{
    let n = g.degrees@.len();
    if g.navigable() {
        assert forall|i: int, j: int| 0 <= i < n && 0 <= j < g.degrees@[i] implies #[trigger] g.neighbors@[i * g.r + j]
            < n by {
            law_lists_stand_in_their_slots(g, i, j);
            assert(in_range(g.list(i), n));
            assert(g.list(i)[j] < n);
        }
    }
    if g.medoid < n && (forall|i: int| 0 <= i < n ==> #[trigger] g.degrees@[i] <= g.r) && (forall|i: int, j: int|
        0 <= i < n && 0 <= j < g.degrees@[i] ==> #[trigger] g.neighbors@[i * g.r + j] < n) {
        assert forall|i: int| 0 <= i < n implies in_range(#[trigger] g.list(i), n) by {
            assert forall|j: int| 0 <= j < g.list(i).len() implies #[trigger] g.list(i)[j] < n by {
                law_lists_stand_in_their_slots(g, i, j);
                assert(g.neighbors@[i * g.r + j] < n);
            }
        }
    }
}

/// The degrees of two parts of a graph add up, and one degree is itself.
pub proof fn law_degrees_add_up(a: Seq<u8>, b: Seq<u8>, d: u8)
    ensures
        degree_total(a + b) == degree_total(a) + degree_total(b),
        degree_total(seq![d]) == d,
    decreases b.len(),
{
    assert(seq![d].drop_last() =~= Seq::empty());
    reveal_with_fuel(degree_total, 2);
    if b.len() == 0 {
        assert(a + b =~= a);
    } else {
        law_degrees_add_up(a, b.drop_last(), d);
        assert((a + b).drop_last() =~= a + b.drop_last());
    }
}

/// A graph file is refused for the first of these reasons: it is too short for
/// a header; it does not start as graph files do; it has another version; it
/// has no room for neighbors, or for more than 255, or an entry point that
/// does not exist; it is too short for its graph; or a node has more neighbors
/// than slots. Any other bytes are accepted.
pub proof fn law_graph_refusals(bytes: Seq<u8>)
    ensures
        ({
            let e = graph_error(bytes);
            let n = long_at(bytes, 8) as int;
            let r = word_at(bytes, 16) as int;
            let short = bytes.len() < 24;
            let strange = !short && !(bytes[0] == 78 && bytes[1] == 86 && bytes[2] == 86 && bytes[3] == 71);
            let foreign = !short && !strange && word_at(bytes, 4) != 1;
            let odd = !short && !strange && !foreign && (r == 0 || r > 255 || word_at(bytes, 20) >= n);
            let cut = !short && !strange && !foreign && !odd && bytes.len() < 24 + n + 4 * (n * r);
            let crowded = !short && !strange && !foreign && !odd && !cut && exists|i: int|
                0 <= i < n && #[trigger] bytes[24 + i] > r;
            &&& e == Some(GraphError::UnexpectedEof) <==> short || cut
            &&& e == Some(GraphError::NotAGraphFile) <==> strange
            &&& e == Some(GraphError::UnsupportedVersion) <==> foreign
            &&& e == Some(GraphError::CorruptHeader) <==> odd
            &&& e == Some(GraphError::CorruptDegrees) <==> crowded
            &&& e is None <==> !short && !strange && !foreign && !odd && !cut && !crowded
        }),
{
    let n = long_at(bytes, 8) as int;
    let r = word_at(bytes, 16) as int;
    if bytes.len() >= 24 {
        let head = bytes.take(4);
        assert(head[0] == bytes[0] && head[1] == bytes[1] && head[2] == bytes[2] && head[3] == bytes[3]);
        if bytes[0] == 78 && bytes[1] == 86 && bytes[2] == 86 && bytes[3] == 71 {
            assert(head =~= graph_magic());
        }
        assert(n * r >= 0) by (nonlinear_arith)
            requires
                n >= 0,
                r >= 0,
        ;
        if bytes.len() >= 24 + n {
            let degrees = bytes.subrange(24, 24 + n);
            if degrees_fit(degrees, r) {
                assert forall|i: int| 0 <= i < n implies #[trigger] bytes[24 + i] <= r by {
                    assert(degrees[i] <= r);
                }
            } else {
                let i = choose|i: int| 0 <= i < degrees.len() && #[trigger] degrees[i] > r;
                assert(bytes[24 + i] > r);
            }
        }
    }
}

/// A graph file holds its parts at these places.
pub proof fn law_graph_file_layout(g: VamanaGraph)
    requires
        g.wf(),
        1 <= g.r <= 255,
        g.medoid < g.nodes(),
        g.nodes() <= u64::MAX,
    ensures
        ({
            let f = g.file();
            let n = g.nodes() as int;
            &&& f.len() == 24 + n + 4 * (n * g.r)
            &&& f[0] == 78 && f[1] == 86 && f[2] == 86 && f[3] == 71
            &&& word_at(f, 4) == 1
            &&& long_at(f, 8) == n
            &&& word_at(f, 16) == g.r
            &&& word_at(f, 20) == g.medoid
            &&& forall|i: int| 0 <= i < n ==> f[24 + i] == #[trigger] g.degrees@[i]
            &&& forall|k: int| 0 <= k < n * g.r ==> word_at(f, 24 + n + 4 * k) == #[trigger] g.neighbors@[k]
        }),
{
    let f = g.file();
    let n = g.nodes() as int;
    law_save_load_roundtrip(g, Seq::empty());
    assert(f + Seq::<u8>::empty() =~= f);
    law_graph_refusals(f);
    assert forall|i: int| 0 <= i < n implies f[24 + i] == #[trigger] g.degrees@[i] by {
        assert(f.subrange(24, 24 + n)[i] == g.degrees@[i]);
    }
    assert forall|k: int| 0 <= k < n * g.r implies word_at(f, 24 + n + 4 * k) == #[trigger] g.neighbors@[k] by {
        assert(words_at(f, 24 + n, (n * g.r) as nat)[k] == g.neighbors@[k]);
    }
}

/// A search over the graph goes along a node's list: the first of its slots,
/// as many as its degree says.
pub proof fn law_graph_search_goes_along_the_lists(g: VamanaGraph, id: u32, l: Seq<u32>)
    requires
        g.wf(),
        id < g.nodes(),
    ensures
        g.adjacency()(id, l) <==> l.len() == g.degrees@[id as int] && forall|j: int|
            0 <= j < l.len() ==> #[trigger] l[j] == g.neighbors@[id * g.r + j],
{
    lemma_row_bounds(id as int, g.r as int, g.nodes() as int);
    let list = g.list(id as int);
    if l.len() == g.degrees@[id as int] && forall|j: int|
        0 <= j < l.len() ==> #[trigger] l[j] == g.neighbors@[id * g.r + j] {
        assert(l =~= list);
    }
}

} // verus!
