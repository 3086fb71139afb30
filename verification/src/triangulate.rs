//! Derives the geometry graph fed to the layout engine: every crochet edge
//! is given a target-length class, and diagonal shortcut edges are added
//! around each insertion so increase and decrease points cannot fold flat.

use vstd::prelude::*;
use crate::pattern::{Edge, EdgeType, GraphModel, Node, Pattern, StitchKind};

verus! {

/// The target-length class of a geometry edge. The numeric lengths (one
/// stitch width, the gauge ratio, a near-zero epsilon, and the diagonal of a
/// unit-by-gauge cell) belong to the rendering layer.
#[derive(PartialEq, Eq, Structural, Clone, Copy, Debug)]
pub enum EdgeLength {
    /// One stitch width: Previous and Neighbour edges.
    Unit,
    /// The row-height to stitch-width gauge ratio: Insert edges.
    Gauge,
    /// A near-zero distance: Slip and Sew edges.
    Epsilon,
    /// The diagonal of a unit-by-gauge cell: triangulation shortcuts.
    Diagonal,
}

/// An edge of the geometry graph.
#[derive(PartialEq, Eq, Structural, Clone, Copy, Debug)]
pub struct TriEdge {
    pub from: usize,
    pub to: usize,
    pub len: EdgeLength,
}

/// The geometry graph: the pattern's nodes with length-classed edges.
pub struct TriGraph {
    pub node_count: usize,
    pub edges: Vec<TriEdge>,
}

/// The node is a chain stitch.
pub open spec fn is_chain_stitch(n: Node) -> bool {
    n matches Node::Stitch { kind: StitchKind::Chain, .. }
}

/// The node is a double crochet stitch.
pub open spec fn is_dc_stitch(n: Node) -> bool {
    n matches Node::Stitch { kind: StitchKind::Dc, .. }
}

/// The length class an edge type carries on its own.
pub open spec fn base_length(t: EdgeType) -> EdgeLength {
    match t {
        EdgeType::Previous => EdgeLength::Unit,
        EdgeType::Insert => EdgeLength::Gauge,
        EdgeType::Slip => EdgeLength::Epsilon,
        EdgeType::Neighbour => EdgeLength::Unit,
        EdgeType::Sew => EdgeLength::Epsilon,
    }
}

/// The length class of an edge after reclassification: a Previous edge from
/// a chain to a double crochet behaves like an insertion in the fabric.
pub open spec fn reclass(nodes: Seq<Node>, e: Edge) -> EdgeLength {
    if e.ty == EdgeType::Previous && is_chain_stitch(nodes[e.from as int]) && is_dc_stitch(
        nodes[e.to as int],
    ) {
        EdgeLength::Gauge
    } else {
        base_length(e.ty)
    }
}

/// The source of the last Previous edge pointing at `a`: the stitch worked
/// immediately after `a`.
pub open spec fn find_last_prev_into(edges: Seq<Edge>, a: usize) -> Option<usize>
    decreases edges.len(),
{
    if edges.len() == 0 {
        None
    } else if edges.last().ty == EdgeType::Previous && edges.last().to == a {
        Some(edges.last().from)
    } else {
        find_last_prev_into(edges.drop_last(), a)
    }
}

/// The target of the last Insert edge leaving `x`: what `x` is worked into.
pub open spec fn find_last_insert_from(edges: Seq<Edge>, x: usize) -> Option<usize>
    decreases edges.len(),
{
    if edges.len() == 0 {
        None
    } else if edges.last().ty == EdgeType::Insert && edges.last().from == x {
        Some(edges.last().to)
    } else {
        find_last_insert_from(edges.drop_last(), x)
    }
}

/// The diagonal shortcuts contributed by one edge: for an insertion `a -> b`
/// whose target is not a turn, connect the stitch `x` worked after `a` to
/// `b`, and what `x` inserts into back to `a`.
pub open spec fn diagonals_for(g: GraphModel, e: Edge) -> Seq<TriEdge> {
    if e.ty == EdgeType::Insert && !g.nodes[e.to as int].spec_is_turn() {
        match find_last_prev_into(g.edges, e.from) {
            None => Seq::empty(),
            Some(x) => match find_last_insert_from(g.edges, x) {
                None => seq![(TriEdge { from: x, to: e.to, len: EdgeLength::Diagonal })],
                Some(q) => seq![
                    (TriEdge { from: x, to: e.to, len: EdgeLength::Diagonal }),
                    (TriEdge { from: q, to: e.from, len: EdgeLength::Diagonal }),
                ],
            },
        }
    } else {
        Seq::empty()
    }
}

/// All diagonal shortcuts contributed by the first `i` edges, in edge order.
pub open spec fn diagonals_up_to(g: GraphModel, i: int) -> Seq<TriEdge>
    decreases i,
{
    if i <= 0 {
        Seq::empty()
    } else {
        diagonals_up_to(g, i - 1) + diagonals_for(g, g.edges[i - 1])
    }
}

/// The full geometry edge list: every crochet edge reclassified, followed by
/// all diagonal shortcuts.
pub open spec fn tri_edges(g: GraphModel) -> Seq<TriEdge> {
    Seq::new(
        g.edges.len(),
        |i: int| (TriEdge {
            from: g.edges[i].from,
            to: g.edges[i].to,
            len: reclass(g.nodes, g.edges[i]),
        }),
    ) + diagonals_up_to(g, g.edges.len() as int)
}

/// Scans the edge list backwards for the last Previous edge into `a`.
fn last_prev_into(p: &Pattern, a: usize) -> (r: Option<usize>)
    ensures
        r == find_last_prev_into(p@.edges, a),
{
    let g = p.graph();
    let mut i: usize = g.edge_count();
    proof {
        assert(p@.edges.take(i as int) =~= p@.edges);
    }
    while i > 0
        invariant
            i <= p@.edges.len(),
            g@ == p@,
            find_last_prev_into(p@.edges, a) == find_last_prev_into(p@.edges.take(i as int), a),
        decreases i,
    {
        let e = g.edge(i - 1);
        proof {
            assert(p@.edges.take(i as int).drop_last() =~= p@.edges.take(i as int - 1));
            assert(p@.edges.take(i as int).last() == e);
        }
        if matches!(e.ty, EdgeType::Previous) && e.to == a {
            return Some(e.from);
        }
        i = i - 1;
    }
    None
}

/// Scans the edge list backwards for the last Insert edge out of `x`.
fn last_insert_from(p: &Pattern, x: usize) -> (r: Option<usize>)
    ensures
        r == find_last_insert_from(p@.edges, x),
{
    let g = p.graph();
    let mut i: usize = g.edge_count();
    proof {
        assert(p@.edges.take(i as int) =~= p@.edges);
    }
    while i > 0
        invariant
            i <= p@.edges.len(),
            g@ == p@,
            find_last_insert_from(p@.edges, x) == find_last_insert_from(
                p@.edges.take(i as int),
                x,
            ),
        decreases i,
    {
        let e = g.edge(i - 1);
        proof {
            assert(p@.edges.take(i as int).drop_last() =~= p@.edges.take(i as int - 1));
            assert(p@.edges.take(i as int).last() == e);
        }
        if matches!(e.ty, EdgeType::Insert) && e.from == x {
            return Some(e.to);
        }
        i = i - 1;
    }
    None
}

impl Pattern {
    /// Returns the triangulated geometry graph: the same nodes, every edge
    /// reclassified to a length class, and diagonal shortcuts appended.
    pub fn triangulated_graph(&self) -> (r: TriGraph)
        requires
            self@.wf(),
        ensures
            r.node_count == self@.nodes.len(),
            r.edges@ == tri_edges(self@),
    {
        let g = self.graph();
        let n_edges = g.edge_count();
        let ghost base = Seq::new(
            self@.edges.len(),
            |i: int| (TriEdge {
                from: self@.edges[i].from,
                to: self@.edges[i].to,
                len: reclass(self@.nodes, self@.edges[i]),
            }),
        );

        let mut out: Vec<TriEdge> = Vec::new();
        let mut i: usize = 0;
        while i < n_edges
            invariant
                i <= n_edges,
                n_edges == self@.edges.len(),
                self@.wf(),
                base == Seq::new(
                    self@.edges.len(),
                    |k: int| (TriEdge {
                        from: self@.edges[k].from,
                        to: self@.edges[k].to,
                        len: reclass(self@.nodes, self@.edges[k]),
                    }),
                ),
                out@ == base.take(i as int),
            decreases n_edges - i,
        {
            let e = self.graph().edge(i);
            let from_node = self.graph().node(e.from);
            let to_node = self.graph().node(e.to);
            let len = if matches!(e.ty, EdgeType::Previous) && matches!(
                from_node,
                Node::Stitch { kind: StitchKind::Chain, .. },
            ) && matches!(to_node, Node::Stitch { kind: StitchKind::Dc, .. }) {
                EdgeLength::Gauge
            } else {
                match e.ty {
                    EdgeType::Previous => EdgeLength::Unit,
                    EdgeType::Insert => EdgeLength::Gauge,
                    EdgeType::Slip => EdgeLength::Epsilon,
                    EdgeType::Neighbour => EdgeLength::Unit,
                    EdgeType::Sew => EdgeLength::Epsilon,
                }
            };
            out.push(TriEdge { from: e.from, to: e.to, len });
            proof {
                assert(out@ =~= base.take(i as int + 1));
            }
            i = i + 1;
        }
        proof {
            assert(base.take(n_edges as int) =~= base);
        }

        let mut j: usize = 0;
        while j < n_edges
            invariant
                j <= n_edges,
                n_edges == self@.edges.len(),
                self@.wf(),
                base == Seq::new(
                    self@.edges.len(),
                    |k: int| (TriEdge {
                        from: self@.edges[k].from,
                        to: self@.edges[k].to,
                        len: reclass(self@.nodes, self@.edges[k]),
                    }),
                ),
                out@ == base + diagonals_up_to(self@, j as int),
            decreases n_edges - j,
        {
            let e = self.graph().edge(j);
            let ghost pre = out@;
            if matches!(e.ty, EdgeType::Insert) && !self.graph().node(e.to).is_turn() {
                match last_prev_into(self, e.from) {
                    None => {},
                    Some(x) => {
                        out.push(TriEdge { from: x, to: e.to, len: EdgeLength::Diagonal });
                        match last_insert_from(self, x) {
                            None => {},
                            Some(q) => {
                                out.push(
                                    TriEdge { from: q, to: e.from, len: EdgeLength::Diagonal },
                                );
                            },
                        }
                    },
                }
            }
            proof {
                assert(out@ =~= pre + diagonals_for(self@, self@.edges[j as int]));
                assert(out@ =~= base + diagonals_up_to(self@, j as int + 1));
            }
            j = j + 1;
        }
        TriGraph { node_count: self.graph().node_count(), edges: out }
    }
}

} // verus!
