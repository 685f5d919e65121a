//! The graph store: an immutable, packed representation of a road network.
//!
//! All edges live in one flat vector, grouped contiguously by source node; a
//! parallel offset table of length `|nodes| + 1` marks each node's slice.
//! Coordinates, lengths, speeds and times are fixed-point integers: positions
//! in microdegrees, lengths in meters, speeds in millimeters per second.

use vstd::prelude::*;

verus! {

/// Largest admissible edge length in meters. Chosen so that
/// `length * 1_000_000` (the time-cost numerator) cannot overflow a `u64`.
pub const MAX_EDGE_LENGTH: u64 = 18_446_744_073_709;

/// A geographic coordinate in microdegrees (degree * 10^6).
#[derive(Clone, Copy, Debug, PartialEq, Eq, Structural)]
pub struct Position {
    pub lat: i64,
    pub lon: i64,
}

/// A node of the network: its externally visible identifier and its position.
/// The node's internal index is its position in `Graph::nodes`.
#[derive(Clone, Copy, Debug, PartialEq, Eq, Structural)]
pub struct Node {
    pub ext_id: i64,
    pub pos: Position,
}

/// A directed edge. Its source node is implied by the offset table; `target`
/// is the internal index of its destination. `length` is in meters, `speed`
/// (the nominal travel speed) in millimeters per second, and `allowed_modes`
/// is a bitmask of the travel modes permitted on the edge.
#[derive(Clone, Copy, Debug, PartialEq, Eq, Structural)]
pub struct Edge {
    pub target: usize,
    pub length: u64,
    pub speed: u64,
    pub allowed_modes: u8,
}

/// Structural invariant violation found while loading a graph.
#[derive(Clone, Copy, Debug, PartialEq, Eq, Structural)]
pub enum GraphError {
    InvalidGraph,
}

/// A single edge is structurally sound for a graph with `n` nodes: its target
/// is a valid internal index, its speed is positive (so time costs are
/// defined) and its length is within the machine bound.
pub open spec fn edge_ok(e: Edge, n: int) -> bool {
    &&& 0 <= e.target < n
    &&& 1 <= e.speed
    &&& e.length <= MAX_EDGE_LENGTH
}

/// The immutable graph store. Built once by [`Graph::build`], which checks
/// the structural invariants; afterwards it is only read.
pub struct Graph {
    pub nodes: Vec<Node>,
    pub edges: Vec<Edge>,
    pub offsets: Vec<usize>,
}

impl Graph {
    /// Well-formedness: `offsets` has one entry per node plus a sentinel, is
    /// non-decreasing, starts at 0 and ends at `|edges|`, so it partitions the
    /// flat edge vector with no overlap and no gap; and every edge is sound.
    pub open spec fn wf(self) -> bool {
        &&& self.offsets@.len() == self.nodes@.len() + 1
        &&& self.offsets@[0] == 0
        &&& self.offsets@[self.nodes@.len() as int] == self.edges@.len()
        &&& forall|i: int, j: int|
            0 <= i <= j <= self.nodes@.len() ==> (#[trigger] self.offsets@[i])
                <= (#[trigger] self.offsets@[j])
        &&& forall|e: int|
            0 <= e < self.edges@.len() ==> edge_ok(#[trigger] self.edges@[e], self.nodes@.len() as int)
    }

    pub open spec fn n_nodes(self) -> int {
        self.nodes@.len() as int
    }

    /// Validates the structural invariants and assembles a graph.
    /// Returns `InvalidGraph` exactly when some invariant fails; the store
    /// never serves queries in that case.
    pub fn build(nodes: Vec<Node>, edges: Vec<Edge>, offsets: Vec<usize>) -> (r: Result<
        Graph,
        GraphError,
    >)
        ensures
            (r matches Ok(g) ==> {
                &&& g.wf()
                &&& g.nodes@ == nodes@
                &&& g.edges@ == edges@
                &&& g.offsets@ == offsets@
            }),
            (r matches Err(e) ==> e == GraphError::InvalidGraph),
            (r is Ok <==> (Graph { nodes, edges, offsets }).wf()),
    {
        let g = Graph { nodes, edges, offsets };
        let n = g.nodes.len();
        if g.offsets.len() == 0 || g.offsets.len() - 1 != n {
            return Err(GraphError::InvalidGraph);
        }
        if g.offsets[0] != 0 {
            return Err(GraphError::InvalidGraph);
        }
        if g.offsets[n] != g.edges.len() {
            return Err(GraphError::InvalidGraph);
        }
        let mut i: usize = 0;
        while i < n
            invariant
                g == (Graph { nodes, edges, offsets }),
                n == g.nodes@.len(),
                g.offsets@.len() == n + 1,
                i <= n,
                forall|j: int| 0 <= j < i ==> (#[trigger] g.offsets@[j]) <= g.offsets@[j + 1],
            decreases n - i,
        {
            if g.offsets[i] > g.offsets[i + 1] {
                proof {
                    assert(g.offsets@[i as int] > g.offsets@[i as int + 1]);
                    assert(!g.wf());
                }
                return Err(GraphError::InvalidGraph);
            }
            i += 1;
        }
        proof {
            assert forall|a: int, b: int| 0 <= a <= b <= n implies (#[trigger] g.offsets@[a])
                <= (#[trigger] g.offsets@[b]) by {
                lemma_adjacent_monotone(g.offsets@, n as int, a, b);
            }
        }
        let mut e: usize = 0;
        while e < g.edges.len()
            invariant
                g == (Graph { nodes, edges, offsets }),
                n == g.nodes@.len(),
                e <= g.edges@.len(),
                forall|j: int| 0 <= j < e ==> edge_ok(#[trigger] g.edges@[j], n as int),
            decreases g.edges@.len() - e,
        {
            let ed = g.edges[e];
            if ed.target >= n || ed.speed < 1 || ed.length > MAX_EDGE_LENGTH {
                proof {
                    assert(!edge_ok(g.edges@[e as int], n as int));
                    assert(!g.wf());
                }
                return Err(GraphError::InvalidGraph);
            }
            e += 1;
        }
        Ok(g)
    }

    /// The slice boundaries of `node`'s outgoing edges in the flat edge
    /// vector: exactly the edges whose source is `node`.
    pub fn offset_lookup(&self, node: usize) -> (r: (usize, usize))
        requires
            self.wf(),
            node < self.nodes@.len(),
        ensures
            r.0 == self.offsets@[node as int],
            r.1 == self.offsets@[node as int + 1],
            r.0 <= r.1 <= self.edges@.len(),
    {
        proof {
            // the offset table is a vector, so its length fits a usize and
            // node + 1 cannot overflow
            assert(self.offsets.len() == self.offsets@.len());
        }
        let start = self.offsets[node];
        let end = self.offsets[node + 1];
        proof {
            lemma_offsets_monotone(*self, node as int + 1, self.nodes@.len() as int);
        }
        (start, end)
    }

    /// Translates an external node identifier to its internal index, or
    /// `None` when the id is unknown. Returns the first matching node, so the
    /// translation is a function of the graph and the id alone.
    pub fn resolve(&self, ext_id: i64) -> (r: Option<usize>)
        ensures
            (r matches Some(i) ==> resolved_to(self.nodes@, ext_id, i as int)),
            (r is None <==> !has_node(self.nodes@, ext_id)),
    {
        let mut i: usize = 0;
        while i < self.nodes.len()
            invariant
                i <= self.nodes@.len(),
                forall|j: int| 0 <= j < i ==> self.nodes@[j].ext_id != ext_id,
            decreases self.nodes@.len() - i,
        {
            if self.nodes[i].ext_id == ext_id {
                return Some(i);
            }
            i += 1;
        }
        None
    }
}

/// `i` is the internal index that `ext_id` resolves to: the first node that
/// carries this external identifier. At most one index satisfies this.
pub open spec fn resolved_to(nodes: Seq<Node>, ext_id: i64, i: int) -> bool {
    &&& 0 <= i < nodes.len()
    &&& nodes[i].ext_id == ext_id
    &&& forall|j: int| 0 <= j < i ==> (#[trigger] nodes[j]).ext_id != ext_id
}

/// Some node of the graph carries this external identifier.
pub open spec fn has_node(nodes: Seq<Node>, ext_id: i64) -> bool {
    exists|j: int| 0 <= j < nodes.len() && (#[trigger] nodes[j]).ext_id == ext_id
}

/// In a well-formed graph the offset table is monotone between any two
/// positions.
pub proof fn lemma_offsets_monotone(g: Graph, i: int, j: int)
    requires
        g.wf(),
        0 <= i <= j <= g.nodes@.len(),
    ensures
        g.offsets@[i] <= g.offsets@[j],
{
}

/// A table whose neighbouring entries are ordered is ordered between any
/// two positions.
proof fn lemma_adjacent_monotone(off: Seq<usize>, lim: int, i: int, j: int)
    requires
        forall|k: int| 0 <= k < lim ==> (#[trigger] off[k]) <= off[k + 1],
        0 <= i <= j <= lim,
        lim < off.len(),
    ensures
        off[i] <= off[j],
    decreases j - i,
{
    if i < j {
        lemma_adjacent_monotone(off, lim, i, j - 1);
        assert(off[j - 1] <= off[j]);
    }
}

} // verus!
