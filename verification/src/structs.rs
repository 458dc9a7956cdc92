//! The graph data model: named 3D points ("nodes") connected by weighted
//! edges, held in a single append-only arena.
//!
//! Coordinates and edge weights are IEEE-754 single-precision bit patterns,
//! carried as `u32` values. The graph core never does arithmetic on them: it
//! stores them, compares them for identity, and hands them back. Measuring a
//! distance, rendering a coordinate as decimal text and projecting a point
//! onto a raster are the driver's work; the driver passes the measured values
//! in, and every decision taken over them here is verified.
//!
//! Edges name their destination by index into the arena. Nodes are append
//! only, so an index, once valid, stays valid for the graph's lifetime.
use vstd::prelude::*;

verus! {

use vstd::string::StringExecFns;

/// An immutable 3D coordinate. Each field is the bit pattern of an IEEE-754
/// single-precision value; equality is exact bit-for-bit comparison of the
/// three fields.
#[derive(Debug, Clone, Copy, PartialEq, Eq, Structural)]
pub struct Point {
    pub x: u32,
    pub y: u32,
    pub z: u32,
}

/// A weighted directed reference from one node to another. The weight is a
/// single-precision bit pattern; the destination is an index into the owning
/// graph's node arena. An edge has no reference back to its source: the
/// source is the node whose edge list contains it.
#[derive(Debug, Clone, Copy, PartialEq, Eq, Structural)]
pub struct Edge {
    pub weight: u32,
    pub dest: usize,
}

impl Edge {
    /// Builds an edge of the given weight, pointing at the node stored at
    /// index `dest`.
    pub fn new(weight: u32, dest: usize) -> (e: Edge)
        ensures
            e == (Edge { weight, dest }),
    {
        Edge { weight, dest }
    }
}

/// A named entity at a `Point`, holding its outgoing edges.
#[derive(Debug)]
pub struct GraphNode {
    pub name: String,
    pub pos: Point,
    pub edges: Vec<Edge>,
}

/// What node equality means: name and position only. Edge lists are
/// structural, not identity-defining, and play no part.
pub open spec fn node_eq(a: &GraphNode, b: &GraphNode) -> bool {
    a.name@ == b.name@ && a.pos == b.pos
}

impl PartialEq for GraphNode {
    fn eq(&self, other: &Self) -> (r: bool) {
        self.name == other.name && self.pos == other.pos
    }
}

impl vstd::std_specs::cmp::PartialEqSpecImpl for GraphNode {
    open spec fn obeys_eq_spec() -> bool {
        true
    }

    open spec fn eq_spec(&self, other: &GraphNode) -> bool {
        node_eq(self, other)
    }
}

impl GraphNode {
    /// Builds a node with the given name, positioned at the point whose
    /// coordinate bit patterns are `x`, `y`, `z`, and with no edges yet.
    /// Always succeeds.
    pub fn new(name: String, x: u32, y: u32, z: u32) -> (n: GraphNode)
        ensures
            n.name@ == name@,
            n.pos == (Point { x, y, z }),
            n.edges@ == Seq::<Edge>::empty(),
    {
        GraphNode { name, pos: Point { x, y, z }, edges: Vec::new() }
    }

    /// Appends an edge to this node's edge list. Duplicates are not guarded
    /// against; the list keeps insertion order. Name and position are
    /// untouched.
    pub fn add_edge(&mut self, edge: Edge)
        ensures
            final(self).name@ == old(self).name@,
            final(self).pos == old(self).pos,
            final(self).edges@ == old(self).edges@.push(edge),
    {
        self.edges.push(edge);
    }
}

/// Two nodes that agree on name and position are equal, whatever their edge
/// lists hold: the meaning of `==` on nodes never reads the edges.
pub proof fn lemma_node_eq_ignores_edges(a: &GraphNode, b: &GraphNode)
    requires
        a.name@ == b.name@,
        a.pos == b.pos,
    ensures
        node_eq(a, b),
{
}

/// Why a graph mutation was refused.
#[derive(Debug, Clone, Copy, PartialEq, Eq, Structural)]
pub enum GraphError {
    /// A node index lay outside the arena.
    IndexOutOfRange,
    /// A query point matched no node within the snap threshold.
    NoNodeWithinThreshold,
}

/// The bit pattern of the default snap threshold: the single-precision
/// machine epsilon, 2^-23.
pub const DEFAULT_SNAP_THRESHOLD_BITS: u32 = 0x3400_0000;

/// The sole owner of the node arena. Nodes are referenced by index; indices
/// are never reused or invalidated, since nodes are append only.
pub struct Graph {
    pub nodes: Vec<GraphNode>,
    pub edges: Vec<Edge>,
}

impl Graph {
    /// No edge dangles: every edge in every node's list points back into the
    /// arena.
    pub open spec fn wf(self) -> bool {
        forall|i: int, j: int|
            0 <= i < self.nodes@.len() && 0 <= j < self.nodes@[i].edges@.len()
                ==> (#[trigger] self.nodes@[i].edges@[j]).dest < self.nodes@.len()
    }

    /// An empty graph: no nodes, no edges.
    pub fn new() -> (g: Graph)
        ensures
            g.nodes@ == Seq::<GraphNode>::empty(),
            g.edges@ == Seq::<Edge>::empty(),
            g.wf(),
    {
        Graph { nodes: Vec::new(), edges: Vec::new() }
    }

    /// Builds a graph from a ready-made node arena and auxiliary edge list,
    /// taking ownership of both.
    pub fn build(nodes: Vec<GraphNode>, edges: Vec<Edge>) -> (g: Graph)
        ensures
            g.nodes@ == nodes@,
            g.edges@ == edges@,
    {
        Graph { nodes, edges }
    }

    /// Moves `node` into the arena, appending it at the end; its index is the
    /// previous node count. Always succeeds. Adding an edge-less node keeps
    /// the graph well formed.
    pub fn add_node(&mut self, node: GraphNode)
        ensures
            final(self).nodes@ == old(self).nodes@.push(node),
            final(self).edges@ == old(self).edges@,
            old(self).wf() && node.edges@.len() == 0 ==> final(self).wf(),
    {
        self.nodes.push(node);
    }

    /// Whether every edge points back into the arena; decides `wf` at run
    /// time, so an unverified caller can test it before rendering.
    pub fn wf_check(&self) -> (r: bool)
        ensures
            r == self.wf(),
    {
        let n = self.nodes.len();
        let mut i: usize = 0;
        while i < n
            invariant
                n == self.nodes@.len(),
                0 <= i <= n,
                forall|p: int, q: int|
                    0 <= p < i && 0 <= q < self.nodes@[p].edges@.len()
                        ==> (#[trigger] self.nodes@[p].edges@[q]).dest < n,
            decreases n - i,
        {
            let m = self.nodes[i].edges.len();
            let mut j: usize = 0;
            while j < m
                invariant
                    n == self.nodes@.len(),
                    0 <= i < n,
                    m == self.nodes@[i as int].edges@.len(),
                    0 <= j <= m,
                    forall|q: int|
                        0 <= q < j
                            ==> (#[trigger] self.nodes@[i as int].edges@[q]).dest < n,
                decreases m - j,
            {
                if self.nodes[i].edges[j].dest >= n {
                    return false;
                }
                j += 1;
            }
            i += 1;
        }
        true
    }

    /// Connects the nodes at `src_idx` and `dst_idx` with a symmetric pair of
    /// edges, both carrying `weight` — the caller measures the weight (the
    /// distance between the two positions at the time of connection; it is
    /// not updated if a node later moves). Fails, leaving the graph exactly
    /// as it was, iff either index lies outside the arena. Self-loops are
    /// permitted: connecting an index to itself appends two edges to the one
    /// node, each pointing at itself.
    pub fn add_edge_between_nodes(&mut self, src_idx: usize, dst_idx: usize, weight: u32) -> (r:
        Result<(), GraphError>)
        ensures
            r is Ok <==> (src_idx < old(self).nodes@.len() && dst_idx < old(self).nodes@.len()),
            r is Err ==> *final(self) == *old(self) && r == Err::<(), GraphError>(
                GraphError::IndexOutOfRange,
            ),
            r is Ok ==> {
                &&& final(self).nodes@.len() == old(self).nodes@.len()
                &&& final(self).edges@ == old(self).edges@
                &&& forall|k: int|
                    0 <= k < old(self).nodes@.len() && k != src_idx && k != dst_idx
                        ==> final(self).nodes@[k] == old(self).nodes@[k]
                &&& forall|k: int|
                    0 <= k < old(self).nodes@.len() ==> {
                        &&& (#[trigger] final(self).nodes@[k]).name@ == old(self).nodes@[k].name@
                        &&& final(self).nodes@[k].pos == old(self).nodes@[k].pos
                    }
                &&& src_idx != dst_idx ==> final(self).nodes@[src_idx as int].edges@ == old(
                    self,
                ).nodes@[src_idx as int].edges@.push(Edge { weight, dest: dst_idx })
                &&& src_idx != dst_idx ==> final(self).nodes@[dst_idx as int].edges@ == old(
                    self,
                ).nodes@[dst_idx as int].edges@.push(Edge { weight, dest: src_idx })
                &&& src_idx == dst_idx ==> final(self).nodes@[src_idx as int].edges@ == old(
                    self,
                ).nodes@[src_idx as int].edges@.push(Edge { weight, dest: dst_idx }).push(
                    Edge { weight, dest: src_idx },
                )
            },
            old(self).wf() ==> final(self).wf(),
    {
        let n = self.nodes.len();
        if src_idx >= n || dst_idx >= n {
            return Err(GraphError::IndexOutOfRange);
        }
        let mut src_node = self.nodes.remove(src_idx);
        src_node.add_edge(Edge { weight, dest: dst_idx });
        self.nodes.insert(src_idx, src_node);
        let mut dst_node = self.nodes.remove(dst_idx);
        dst_node.add_edge(Edge { weight, dest: src_idx });
        self.nodes.insert(dst_idx, dst_node);
        Ok(())
    }

    /// The point-snap scan: `dists` holds, for each node in index order, the
    /// bit pattern of its measured distance to the query point. Returns the
    /// first (lowest-index) node whose entry is below `threshold`, not the
    /// closest one; `None` when no node qualifies. Entries and threshold are
    /// compared as `u32`, which orders non-negative single-precision bit
    /// patterns exactly as the values they denote (and places NaN patterns
    /// above every threshold).
    pub fn nearest_node(&self, dists: &Vec<u32>, threshold: u32) -> (r: Option<usize>)
        requires
            dists@.len() == self.nodes@.len(),
        ensures
            match r {
                Some(i) => {
                    &&& i < dists@.len()
                    &&& dists@[i as int] < threshold
                    &&& forall|j: int| 0 <= j < i ==> dists@[j] >= threshold
                },
                None => forall|j: int| 0 <= j < dists@.len() ==> dists@[j] >= threshold,
            },
    {
        let n = dists.len();
        let mut i: usize = 0;
        while i < n
            invariant
                n == dists@.len(),
                0 <= i <= n,
                forall|j: int| 0 <= j < i ==> dists@[j] >= threshold,
            decreases n - i,
        {
            if dists[i] < threshold {
                return Some(i);
            }
            i += 1;
        }
        None
    }

    /// The connect-by-point decision: `src` and `dst` are the outcomes of
    /// snapping the two query points to the arena (`nearest_node`), and
    /// `weight` the measured distance between the two resolved positions. If
    /// either point matched no node, the operation is refused as
    /// `NoNodeWithinThreshold` — distinct from a bad index — and the graph is
    /// untouched; otherwise it behaves exactly as `add_edge_between_nodes`.
    pub fn add_edge_between_points(
        &mut self,
        src: Option<usize>,
        dst: Option<usize>,
        weight: u32,
    ) -> (r: Result<(), GraphError>)
        ensures
            (src is None || dst is None) ==> *final(self) == *old(self) && r == Err::<
                (),
                GraphError,
            >(GraphError::NoNodeWithinThreshold),
            (src is Some && dst is Some) ==> {
                let s = src->Some_0;
                let d = dst->Some_0;
                &&& (r is Ok <==> (s < old(self).nodes@.len() && d < old(self).nodes@.len()))
                &&& r is Err ==> *final(self) == *old(self) && r == Err::<(), GraphError>(
                    GraphError::IndexOutOfRange,
                )
                &&& r is Ok ==> {
                    &&& final(self).nodes@.len() == old(self).nodes@.len()
                    &&& final(self).edges@ == old(self).edges@
                    &&& forall|k: int|
                        0 <= k < old(self).nodes@.len() && k != s && k != d
                            ==> final(self).nodes@[k] == old(self).nodes@[k]
                    &&& s != d ==> final(self).nodes@[s as int].edges@ == old(
                        self,
                    ).nodes@[s as int].edges@.push(Edge { weight, dest: d })
                    &&& s != d ==> final(self).nodes@[d as int].edges@ == old(
                        self,
                    ).nodes@[d as int].edges@.push(Edge { weight, dest: s })
                    &&& s == d ==> final(self).nodes@[s as int].edges@ == old(
                        self,
                    ).nodes@[s as int].edges@.push(Edge { weight, dest: d }).push(
                        Edge { weight, dest: s },
                    )
                }
            },
            old(self).wf() ==> final(self).wf(),
    {
        match (src, dst) {
            (Some(s), Some(d)) => self.add_edge_between_nodes(s, d, weight),
            _ => Err(GraphError::NoNodeWithinThreshold),
        }
    }

    /// One listing line: `"{name}: ({x}, {y}, {z})"`, with the three
    /// coordinate texts supplied by the caller.
    pub open spec fn line_spec(name: Seq<char>, x: Seq<char>, y: Seq<char>, z: Seq<char>) -> Seq<
        char,
    > {
        name + ": ("@ + x + ", "@ + y + ", "@ + z + ")"@
    }

    /// Produces one human-readable line per node, in index (insertion) order.
    /// `coords` holds, for each node in the same order, its three coordinate
    /// values rendered as decimal text by the caller; the line for node `i`
    /// is exactly `"{name}: ({x}, {y}, {z})"`. Read-only.
    pub fn list_nodes(&self, coords: &Vec<(String, String, String)>) -> (r: Vec<String>)
        requires
            coords@.len() == self.nodes@.len(),
        ensures
            r@.len() == self.nodes@.len(),
            forall|i: int|
                0 <= i < r@.len()
                    ==> (#[trigger] r@[i])@ == Self::line_spec(
                    self.nodes@[i].name@,
                    coords@[i].0@,
                    coords@[i].1@,
                    coords@[i].2@,
                ),
    {
        let n = self.nodes.len();
        let mut out: Vec<String> = Vec::new();
        let mut i: usize = 0;
        while i < n
            invariant
                n == self.nodes@.len(),
                coords@.len() == self.nodes@.len(),
                0 <= i <= n,
                out@.len() == i,
                forall|k: int|
                    0 <= k < i
                        ==> (#[trigger] out@[k])@ == Self::line_spec(
                        self.nodes@[k].name@,
                        coords@[k].0@,
                        coords@[k].1@,
                        coords@[k].2@,
                    ),
            decreases n - i,
        {
            let mut line = self.nodes[i].name.clone();
            line.append(": (");
            line.append(coords[i].0.as_str());
            line.append(", ");
            line.append(coords[i].1.as_str());
            line.append(", ");
            line.append(coords[i].2.as_str());
            line.append(")");
            out.push(line);
            i += 1;
        }
        out
    }
}

} // verus!
