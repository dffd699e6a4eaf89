//! The read-only contracted graph: CSR node/edge arrays plus an
//! edge-inclusion bitmap, with direction-filtered adjacency.

use vstd::prelude::*;

verus! {

/// Index into the dense node array.
pub type NodeId = u32;

/// Edge cost.  Signed: contraction can synthesize self-loop shortcuts whose
/// joined sums are temporarily negative.  Durations use the same type and are
/// summed independently (units are deciseconds, fixed by the preprocessing).
pub type Weight = i32;

/// The two directions of travel.  Both share one edge array; each edge
/// carries an independent usability flag per direction.
#[derive(Copy, Clone, Debug, PartialEq, Eq, Structural)]
pub enum Direction {
    Forward,
    Backward,
}

impl Direction {
    /// The opposite direction, as a spec-level value.
    pub open spec fn spec_opposite(self) -> Direction {
        match self {
            Direction::Forward => Direction::Backward,
            Direction::Backward => Direction::Forward,
        }
    }

    /// Swaps `Forward` and `Backward`.
    pub fn opposite(self) -> (r: Direction)
        ensures
            r == self.spec_opposite(),
    {
        match self {
            Direction::Forward => Direction::Backward,
            Direction::Backward => Direction::Forward,
        }
    }
}

/// One stored edge.  The `forward` and `backward` flags are independent: an
/// edge may be usable in neither, one, or both directions.
#[derive(Copy, Clone, Debug, PartialEq, Eq, Structural)]
pub struct Edge {
    pub target: NodeId,
    pub weight: Weight,
    pub duration: Weight,
    pub forward: bool,
    pub backward: bool,
}

/// True when `e` is usable when travelling in direction `d`.
pub open spec fn dir_ok(e: Edge, d: Direction) -> bool {
    match d {
        Direction::Forward => e.forward,
        Direction::Backward => e.backward,
    }
}

/// Why a set of raw arrays does not form a well-formed graph.
#[derive(Copy, Clone, Debug, PartialEq, Eq, Structural)]
pub enum GraphError {
    /// The node array is empty; it must at least hold the end sentinel.
    MissingSentinel,
    /// There are more nodes than a node id can address.
    TooManyNodes,
    /// Some node's first-edge offset exceeds the next node's.
    NonMonotoneOffsets,
    /// The sentinel offset does not equal the number of edges.
    BadSentinel,
    /// The inclusion bitmap length differs from the number of edges.
    FilterLengthMismatch,
    /// Some edge's target is not a valid node index.
    TargetOutOfRange,
}

/// The read-only contracted graph in CSR layout.
///
/// `first_edge[i] .. first_edge[i + 1]` names node `i`'s adjacency; the entry
/// at index `num_nodes` is a sentinel holding the end offset.  One inclusion
/// bit per edge masks edges disabled by the active metric profile.
pub struct Graph {
    pub first_edge: Vec<u32>,
    pub edges: Vec<Edge>,
    pub include_edges: Vec<bool>,
}

impl Graph {
    /// Number of nodes.
    pub open spec fn node_count(self) -> int {
        self.first_edge@.len() - 1
    }

    /// Number of stored edges.
    pub open spec fn edge_count(self) -> int {
        self.edges@.len() as int
    }

    /// The stored edge at index `i`.
    pub open spec fn edge_at(self, i: int) -> Edge {
        self.edges@[i]
    }

    /// Start of node `n`'s adjacency range.
    pub open spec fn adj_begin(self, n: int) -> int {
        self.first_edge@[n] as int
    }

    /// End of node `n`'s adjacency range.
    pub open spec fn adj_end(self, n: int) -> int {
        self.first_edge@[n + 1] as int
    }

    /// The inclusion bit of edge `i`.
    pub open spec fn included(self, i: int) -> bool {
        self.include_edges@[i]
    }

    /// Well-formedness: a sentinel exists, offsets are monotone and end at
    /// the edge count, the bitmap covers exactly the edges, and every target
    /// is a valid node.
    pub open spec fn wf(self) -> bool {
        &&& self.first_edge@.len() >= 1
        &&& self.node_count() <= u32::MAX
        &&& (forall|i: int|
            0 <= i < self.node_count() ==> #[trigger] self.first_edge@[i]
                <= self.first_edge@[i + 1])
        &&& self.first_edge@[self.node_count()] == self.edges@.len()
        &&& self.include_edges@.len() == self.edges@.len()
        &&& (forall|i: int|
            0 <= i < self.edge_count() ==> (#[trigger] self.edge_at(i)).target
                < self.node_count())
    }

    /// Edge `i` survives the filters for direction `d`: its inclusion bit is
    /// set and its flag for `d` is true.
    pub open spec fn edge_live(self, i: int, d: Direction) -> bool {
        self.included(i) && dir_ok(self.edge_at(i), d)
    }

    /// The edges with indices in `lo .. hi` that survive the filters for
    /// `d`, in stored order.
    pub open spec fn live_between(self, lo: int, hi: int, d: Direction) -> Seq<Edge>
        decreases hi - lo,
    {
        if hi <= lo {
            Seq::empty()
        } else {
            self.live_between(lo, hi - 1, d)
                + if self.edge_live(hi - 1, d) {
                    seq![self.edge_at(hi - 1)]
                } else {
                    Seq::empty()
                }
        }
    }

    /// Node `n`'s adjacency in direction `d`: its stored edge range filtered
    /// by inclusion bit and direction flag, in stored order.
    pub open spec fn adjacent(self, n: int, d: Direction) -> Seq<Edge> {
        self.live_between(self.adj_begin(n), self.adj_end(n), d)
    }

    /// In a well-formed graph every adjacency range lies inside the edge
    /// array.
    pub proof fn lemma_offsets_monotone(self, i: int, j: int)
        requires
            self.wf(),
            0 <= i <= j <= self.node_count(),
        ensures
            self.first_edge@[i] <= self.first_edge@[j],
        decreases j - i,
    {
        if i < j {
            self.lemma_offsets_monotone(i + 1, j);
        }
    }

    /// Every element of a filtered edge range is a live stored edge of that
    /// range.
    pub proof fn lemma_live_between_member(self, lo: int, hi: int, d: Direction, k: int)
        requires
            0 <= k < self.live_between(lo, hi, d).len(),
        ensures
            exists|i: int|
                lo <= i < hi && #[trigger] self.edge_live(i, d) && self.edge_at(i)
                    == self.live_between(lo, hi, d)[k],
        decreases hi - lo,
    {
        let whole = self.live_between(lo, hi, d);
        let prev = self.live_between(lo, hi - 1, d);
        if k < prev.len() {
            self.lemma_live_between_member(lo, hi - 1, d, k);
            let i = choose|i: int|
                lo <= i < hi - 1 && #[trigger] self.edge_live(i, d) && self.edge_at(i) == prev[k];
            assert(whole[k] == prev[k]);
            assert(self.edge_live(i, d) && self.edge_at(i) == whole[k]);
        } else {
            assert(self.edge_live(hi - 1, d));
            assert(whole[k] == self.edge_at(hi - 1));
        }
    }

    /// Validates raw arrays and assembles a graph.  Returns the graph exactly
    /// when the arrays satisfy every well-formedness condition; otherwise
    /// returns the first violated condition, checked in the declared order.
    #[verifier::rlimit(50)]
    pub fn new(first_edge: Vec<u32>, edges: Vec<Edge>, include_edges: Vec<bool>) -> (r: Result<
        Graph,
        GraphError,
    >)
        ensures
            match r {
                Ok(g) => {
                    &&& g.wf()
                    &&& g.first_edge@ == first_edge@
                    &&& g.edges@ == edges@
                    &&& g.include_edges@ == include_edges@
                },
                Err(e) => {
                    let g = Graph { first_edge, edges, include_edges };
                    &&& !g.wf()
                    &&& e == Self::classify(first_edge@, edges@, include_edges@)
                },
            },
    {
        if first_edge.len() == 0 {
            return Err(GraphError::MissingSentinel);
        }
        let n = first_edge.len() - 1;
        if n > u32::MAX as usize {
            return Err(GraphError::TooManyNodes);
        }
        for i in 0..n
            invariant
                n == first_edge@.len() - 1,
                n <= u32::MAX,
                forall|j: int| 0 <= j < i ==> #[trigger] first_edge@[j] <= first_edge@[j + 1],
        {
            if first_edge[i] > first_edge[i + 1] {
                proof {
                    assert(first_edge@[i as int] > first_edge@[i as int + 1]);
                }
                return Err(GraphError::NonMonotoneOffsets);
            }
        }
        if first_edge[n] as usize != edges.len() {
            return Err(GraphError::BadSentinel);
        }
        if include_edges.len() != edges.len() {
            return Err(GraphError::FilterLengthMismatch);
        }
        for i in 0..edges.len()
            invariant
                n == first_edge@.len() - 1,
                n <= u32::MAX,
                forall|j: int| 0 <= j < n ==> #[trigger] first_edge@[j] <= first_edge@[j + 1],
                first_edge@[n as int] == edges@.len(),
                include_edges@.len() == edges@.len(),
                forall|j: int| 0 <= j < i ==> (#[trigger] edges@[j]).target < n,
        {
            if edges[i].target as usize >= n {
                proof {
                    let g = Graph { first_edge, edges, include_edges };
                    assert(g.edge_at(i as int).target >= g.node_count());
                    assert(!g.wf());
                }
                return Err(GraphError::TargetOutOfRange);
            }
        }
        let g = Graph { first_edge, edges, include_edges };
        assert(g.wf());
        Ok(g)
    }

    /// The first well-formedness condition that the raw arrays violate.
    pub open spec fn classify(first_edge: Seq<u32>, edges: Seq<Edge>, include_edges: Seq<
        bool,
    >) -> GraphError {
        if first_edge.len() < 1 {
            GraphError::MissingSentinel
        } else if first_edge.len() - 1 > u32::MAX {
            GraphError::TooManyNodes
        } else if exists|i: int|
            0 <= i < first_edge.len() - 1 && #[trigger] first_edge[i] > first_edge[i + 1] {
            GraphError::NonMonotoneOffsets
        } else if first_edge[first_edge.len() - 1] != edges.len() {
            GraphError::BadSentinel
        } else if include_edges.len() != edges.len() {
            GraphError::FilterLengthMismatch
        } else {
            GraphError::TargetOutOfRange
        }
    }

    /// Number of nodes in the graph.
    pub fn num_nodes(&self) -> (r: usize)
        requires
            self.wf(),
        ensures
            r == self.node_count(),
    {
        self.first_edge.len() - 1
    }

    /// Whether edge `edge_id` passes the active metric profile's filter.
    fn include_edge(&self, edge_id: usize) -> (r: bool)
        requires
            self.wf(),
            edge_id < self.edge_count(),
        ensures
            r == self.included(edge_id as int),
    {
        self.include_edges[edge_id]
    }

    /// Node `node_id`'s adjacency in `direction`: the stored edge range
    /// filtered to edges whose inclusion bit is set and whose flag for
    /// `direction` is true, in stored order.
    pub fn get_adjacent_edges(&self, node_id: NodeId, direction: Direction) -> (r: Vec<Edge>)
        requires
            self.wf(),
            node_id < self.node_count(),
        ensures
            r@ == self.adjacent(node_id as int, direction),
    {
        let n = node_id as usize;
        let len = self.first_edge.len();
        assert(n + 1 < len);
        let start = self.first_edge[n] as usize;
        let end = self.first_edge[n + 1] as usize;
        proof {
            self.lemma_offsets_monotone(n + 1, self.node_count());
        }
        let mut result: Vec<Edge> = Vec::new();
        for i in start..end
            invariant
                self.wf(),
                n + 1 <= self.node_count(),
                start == self.adj_begin(n as int),
                end == self.adj_end(n as int),
                start <= i <= end,
                end <= self.edge_count(),
                result@ == self.live_between(start as int, i as int, direction),
        {
            let edge = &self.edges[i];
            if self.include_edge(i) && edge_usable(edge, direction) {
                result.push(self.edges[i]);
            }
        }
        result
    }
}

/// `g2` is `g1` with some inclusion bits cleared: same arrays, and every
/// edge alive in `g2` is alive in `g1`.
pub open spec fn edge_subset(g1: Graph, g2: Graph) -> bool {
    &&& g2.first_edge@ == g1.first_edge@
    &&& g2.edges@ == g1.edges@
    &&& g2.include_edges@.len() == g1.include_edges@.len()
    &&& (forall|i: int|
        0 <= i < g2.include_edges@.len() ==> (#[trigger] g2.included(i) ==> g1.included(i)))
}

/// Whether `e` is usable when travelling in direction `d`.
pub fn edge_usable(e: &Edge, d: Direction) -> (r: bool)
    ensures
        r == dir_ok(*e, d),
{
    match d {
        Direction::Forward => e.forward,
        Direction::Backward => e.backward,
    }
}

/// The bit at position `i` of a little-endian, least-significant-bit-first
/// packed byte array.
pub open spec fn bit_of(bytes: Seq<u8>, i: int) -> bool {
    (bytes[i / 8] >> (i % 8) as u8) & 1 == 1
}

/// Unpacks an edge-inclusion bitmap from its stored bytes.
///
/// The producer writes whole machine words, so the byte length rounds up
/// past the element count; the caller passes the authoritative count from
/// the sidecar metadata and the result is truncated to it.  Bits beyond the
/// count are never read.  Bit `i` lives in byte `i / 8` at position `i % 8`,
/// least significant first.
pub fn bits_from_bytes(bytes: &Vec<u8>, element_count: usize) -> (r: Option<Vec<bool>>)
    ensures
        match r {
            Some(bits) => {
                &&& element_count <= bytes@.len() * 8
                &&& bits@.len() == element_count
                &&& forall|i: int| 0 <= i < element_count ==> #[trigger] bits@[i] == bit_of(bytes@, i)
            },
            None => element_count > bytes@.len() * 8,
        },
{
    if element_count > 0 && (element_count - 1) / 8 >= bytes.len() {
        proof {
            assert(element_count > bytes@.len() * 8) by (nonlinear_arith)
                requires
                    element_count > 0,
                    (element_count - 1) / 8 >= bytes@.len(),
            ;
        }
        return None;
    }
    proof {
        if element_count > 0 {
            assert(element_count <= bytes@.len() * 8) by (nonlinear_arith)
                requires
                    element_count > 0,
                    (element_count - 1) / 8 < bytes@.len(),
            ;
        }
    }
    let mut bits: Vec<bool> = Vec::new();
    for i in 0..element_count
        invariant
            element_count <= bytes@.len() * 8,
            bits@.len() == i,
            forall|j: int| 0 <= j < i ==> #[trigger] bits@[j] == bit_of(bytes@, j),
    {
        assert(i / 8 < bytes@.len()) by (nonlinear_arith)
            requires
                i < element_count,
                element_count <= bytes@.len() * 8,
        ;
        let byte = bytes[i / 8];
        let bit = (byte >> ((i % 8) as u8)) & 1 == 1;
        bits.push(bit);
    }
    Some(bits)
}

} // verus!
