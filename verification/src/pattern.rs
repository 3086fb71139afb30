//! The crochet graph and the stateful part builder.

use vstd::prelude::*;

verus! {

/// An RGB colour attribute carried on stitch nodes for rendering only.
#[derive(PartialEq, Eq, Structural, Clone, Copy, Debug)]
pub struct Rgb {
    pub r: u8,
    pub g: u8,
    pub b: u8,
}

impl Rgb {
    /// The default yarn colour (white).
    pub fn white() -> (c: Rgb)
        ensures
            c == (Rgb { r: 255, g: 255, b: 255 }),
    {
        Rgb { r: 255, g: 255, b: 255 }
    }
}

/// The kind of an individual stitch node.
#[derive(PartialEq, Eq, Structural, Clone, Copy, Debug)]
pub enum StitchKind {
    /// A chain stitch.
    Chain,
    /// A double crochet stitch.
    Dc,
    /// A decrease stitch, worked over two insertion points.
    Dec,
}

/// A node in the crochet graph.
#[derive(PartialEq, Eq, Structural, Clone, Copy, Debug)]
pub enum Node {
    /// Any stitch in the graph. `turn` marks a chain that also opens a new row.
    Stitch { kind: StitchKind, turn: bool, color: Rgb },
    /// A chain space made up from multiple neighbour nodes.
    ChainSpace,
    /// A magic ring that other stitches can work into.
    MagicRing,
}

/// Different edge types within the crochet graph. Each implies a target
/// length for the layout engine (see [`crate::triangulate`]).
#[derive(PartialEq, Eq, Structural, Clone, Copy, Debug)]
pub enum EdgeType {
    /// The target stitch is the one worked immediately before the source.
    Previous,
    /// The source stitch is worked into the target.
    Insert,
    /// A slip stitch connects the two stitches.
    Slip,
    /// The target stitch is a neighbour making up the source chain space.
    Neighbour,
    /// The two stitches are sewn together.
    Sew,
}

/// A directed edge of the crochet graph, identified by node handles.
#[derive(PartialEq, Eq, Structural, Clone, Copy, Debug)]
pub struct Edge {
    pub from: usize,
    pub to: usize,
    pub ty: EdgeType,
}

/// The mathematical value of a [`StitchGraph`]: its node and edge sequences.
pub ghost struct GraphModel {
    pub nodes: Seq<Node>,
    pub edges: Seq<Edge>,
}

impl GraphModel {
    /// Every edge endpoint is a valid node handle.
    pub open spec fn wf(self) -> bool {
        forall|i: int|
            0 <= i < self.edges.len() ==> (#[trigger] self.edges[i]).from < self.nodes.len()
                && self.edges[i].to < self.nodes.len()
    }
}

impl Node {
    /// Returns whether this node is a turn-marked chain.
    pub fn is_turn(&self) -> (r: bool)
        ensures
            r == self.spec_is_turn(),
    {
        match self {
            Node::Stitch { turn, .. } => *turn,
            _ => false,
        }
    }

    /// Whether the node is a turn-marked stitch.
    pub open spec fn spec_is_turn(self) -> bool {
        match self {
            Node::Stitch { turn, .. } => turn,
            _ => false,
        }
    }

    /// Returns the stitch type as a short text tag.
    pub fn stitch_type(&self) -> (r: &'static str)
        ensures
            self matches (Node::Stitch { kind: StitchKind::Chain, .. }) ==> r@ == "ch"@,
            self matches (Node::Stitch { kind: StitchKind::Dc, .. }) ==> r@ == "dc"@,
            self matches (Node::Stitch { kind: StitchKind::Dec, .. }) ==> r@ == "dec"@,
            self is ChainSpace ==> r@ == "ch_sp"@,
            self is MagicRing ==> r@ == "magic_ring"@,
    {
        match self {
            Node::Stitch { kind: StitchKind::Chain, .. } => "ch",
            Node::Stitch { kind: StitchKind::Dc, .. } => "dc",
            Node::Stitch { kind: StitchKind::Dec, .. } => "dec",
            Node::ChainSpace => "ch_sp",
            Node::MagicRing => "magic_ring",
        }
    }
}

impl Default for Node {
    /// The default node: a plain white chain stitch.
    fn default() -> (r: Self)
        ensures
            r == (Node::Stitch {
                kind: StitchKind::Chain,
                turn: false,
                color: Rgb { r: 255, g: 255, b: 255 },
            }),
    {
        Node::Stitch { kind: StitchKind::Chain, turn: false, color: Rgb::white() }
    }
}

/// Error type for pattern creation. Every builder error is recoverable by the
/// driver; the verified operations never panic.
#[derive(PartialEq, Eq, Structural, Clone, Copy, Debug)]
pub enum PatternError {
    /// A skip was attempted past the end of the insertion row.
    EndOfRow,
    /// There is no current insertion point set.
    NoInsert,
    /// There is no row in the pattern to work into.
    NoRows,
    /// The two lists handed to [`Pattern::sew`] are not the same length.
    SewInvalidLengths,
    /// A chain space was started while one was already started.
    NestedChainSpace,
    /// A chain space was ended while none was started.
    NoChainSpace,
}

impl PatternError {
    /// A short description of the error, suitable for reporting to a driver.
    pub fn message(&self) -> (r: &'static str)
        ensures
            r@.len() > 0,
            self is EndOfRow ==> r@ == "reached end of row when trying to skip"@,
            self is NoInsert ==> r@ == "no insertion point set"@,
            self is NoRows ==> r@ == "no rows created"@,
            self is SewInvalidLengths ==> r@ == "rows to sew are not the same length"@,
            self is NestedChainSpace ==> r@
                == "tried to start a chain space when one was already started"@,
            self is NoChainSpace ==> r@ == "tried to end a chain space when none was started"@,
    {
        proof {
            reveal_strlit("reached end of row when trying to skip");
            reveal_strlit("no insertion point set");
            reveal_strlit("no rows created");
            reveal_strlit("rows to sew are not the same length");
            reveal_strlit("tried to start a chain space when one was already started");
            reveal_strlit("tried to end a chain space when none was started");
        }
        match self {
            PatternError::EndOfRow => "reached end of row when trying to skip",
            PatternError::NoInsert => "no insertion point set",
            PatternError::NoRows => "no rows created",
            PatternError::SewInvalidLengths => "rows to sew are not the same length",
            PatternError::NestedChainSpace => "tried to start a chain space when one was already started",
            PatternError::NoChainSpace => "tried to end a chain space when none was started",
        }
    }
}

/// The edge list with every edge incident to `h` removed, in order.
pub open spec fn remove_touching(edges: Seq<Edge>, h: usize) -> Seq<Edge>
    decreases edges.len(),
{
    if edges.len() == 0 {
        Seq::empty()
    } else {
        let rest = remove_touching(edges.drop_last(), h);
        let e = edges.last();
        if e.from != h && e.to != h {
            rest.push(e)
        } else {
            rest
        }
    }
}

/// The shared directed multigraph of stitch nodes and typed edges, stored as
/// an arena addressed by stable `usize` handles. Nodes are never removed;
/// the only substitution is the in-place magic-ring replacement.
pub struct StitchGraph {
    nodes: Vec<Node>,
    edges: Vec<Edge>,
}

impl View for StitchGraph {
    type V = GraphModel;

    closed spec fn view(&self) -> GraphModel {
        GraphModel { nodes: self.nodes@, edges: self.edges@ }
    }
}

impl StitchGraph {
    /// Creates an empty graph.
    pub fn new() -> (g: StitchGraph)
        ensures
            g@.nodes.len() == 0,
            g@.edges.len() == 0,
    {
        StitchGraph { nodes: Vec::new(), edges: Vec::new() }
    }

    /// The number of nodes in the graph.
    pub fn node_count(&self) -> (r: usize)
        ensures
            r == self@.nodes.len(),
    {
        self.nodes.len()
    }

    /// The number of edges in the graph.
    pub fn edge_count(&self) -> (r: usize)
        ensures
            r == self@.edges.len(),
    {
        self.edges.len()
    }

    /// The node behind a handle.
    pub fn node(&self, h: usize) -> (r: Node)
        requires
            h < self@.nodes.len(),
        ensures
            r == self@.nodes[h as int],
    {
        self.nodes[h]
    }

    /// The edge at an index, in insertion order.
    pub fn edge(&self, i: usize) -> (r: Edge)
        requires
            i < self@.edges.len(),
        ensures
            r == self@.edges[i as int],
    {
        self.edges[i]
    }

    /// All edges, in insertion order.
    pub fn edges(&self) -> (r: &Vec<Edge>)
        ensures
            r@ == self@.edges,
    {
        &self.edges
    }

    /// Replaces the node behind a handle, keeping the handle stable.
    fn set_node(&mut self, h: usize, n: Node)
        requires
            h < old(self)@.nodes.len(),
        ensures
            final(self)@.nodes == old(self)@.nodes.update(h as int, n),
            final(self)@.edges == old(self)@.edges,
    {
        self.nodes[h] = n;
    }

    /// Removes every edge incident to a handle.
    fn remove_edges_at(&mut self, h: usize)
        ensures
            final(self)@.nodes == old(self)@.nodes,
            final(self)@.edges == remove_touching(old(self)@.edges, h),
    {
        let mut kept: Vec<Edge> = Vec::new();
        let mut i: usize = 0;
        while i < self.edges.len()
            invariant
                i <= self.edges@.len(),
                kept@ == remove_touching(self.edges@.take(i as int), h),
            decreases self.edges@.len() - i,
        {
            let e = self.edges[i];
            proof {
                assert(self.edges@.take(i + 1).drop_last() =~= self.edges@.take(i as int));
                assert(self.edges@.take(i + 1).last() == e);
            }
            if e.from != h && e.to != h {
                kept.push(e);
            }
            i = i + 1;
        }
        proof {
            assert(self.edges@.take(self.edges@.len() as int) =~= self.edges@);
        }
        self.edges = kept;
    }

    /// Adds a node and returns its fresh handle.
    fn add_node(&mut self, n: Node) -> (h: usize)
        ensures
            h as nat == old(self)@.nodes.len(),
            final(self)@.nodes == old(self)@.nodes.push(n),
            final(self)@.edges == old(self)@.edges,
    {
        let h = self.nodes.len();
        self.nodes.push(n);
        h
    }

    /// Adds a directed typed edge between two existing nodes.
    fn add_edge(&mut self, from: usize, to: usize, ty: EdgeType)
        requires
            from < old(self)@.nodes.len(),
            to < old(self)@.nodes.len(),
        ensures
            final(self)@.nodes == old(self)@.nodes,
            final(self)@.edges == old(self)@.edges.push(Edge { from, to, ty }),
    {
        self.edges.push(Edge { from, to, ty });
    }
}

/// A whole pattern: the single owner of the crochet graph. Builder state
/// lives in [`Part`] values, which hold only handles into this graph.
pub struct Pattern {
    graph: StitchGraph,
}

impl View for Pattern {
    type V = GraphModel;

    closed spec fn view(&self) -> GraphModel {
        self.graph@
    }
}

impl Pattern {
    /// Creates a new empty pattern with no parts.
    pub fn new() -> (p: Pattern)
        ensures
            p@.nodes.len() == 0,
            p@.edges.len() == 0,
            p@.wf(),
    {
        Pattern { graph: StitchGraph::new() }
    }

    /// A read-only view of the underlying crochet graph.
    pub fn graph(&self) -> (g: &StitchGraph)
        ensures
            g@ == self@,
    {
        &self.graph
    }

    /// Adds a new [`Part`] rooted at a fresh foundation chain node.
    pub fn add_part(&mut self) -> (part: Part)
        requires
            old(self)@.wf(),
        ensures
            final(self)@.wf(),
            final(self)@.nodes == old(self)@.nodes.push(
                (Node::Stitch { kind: StitchKind::Chain, turn: false, color: Rgb { r: 255, g: 255, b: 255 } }),
            ),
            final(self)@.edges == old(self)@.edges,
            part@ == (PartModel {
                start: old(self)@.nodes.len() as usize,
                prev: old(self)@.nodes.len() as usize,
                insert: InsertPoint::Unset,
                chsp: None::<Seq<usize>>,
                rows: seq![seq![old(self)@.nodes.len() as usize]],
                dir: SkipDirection::Forward,
                ignore: false,
                color: (Rgb { r: 255, g: 255, b: 255 }),
            }),
            part.wf(*final(self)),
    {
        let start = self.graph.add_node(
            Node::Stitch { kind: StitchKind::Chain, turn: false, color: Rgb::white() },
        );
        let mut first_row: Vec<usize> = Vec::new();
        first_row.push(start);
        let mut rows: Vec<Vec<usize>> = Vec::new();
        rows.push(first_row);
        let part = Part {
            start,
            prev: start,
            insert: InsertPoint::Unset,
            current_ch_sp: None,
            rows,
            direction: SkipDirection::Forward,
            ignore_for_row: false,
            current_color: Rgb::white(),
        };
        proof {
            assert(part@.rows =~= seq![seq![old(self)@.nodes.len() as usize]]);
        }
        part
    }

    /// Sews two lists of stitches together pairwise with [`EdgeType::Sew`]
    /// edges. When the lists differ in length it fails with
    /// [`PatternError::SewInvalidLengths`] and leaves the graph unchanged.
    pub fn sew(&mut self, row_1: &Vec<usize>, row_2: &Vec<usize>) -> (r: Result<
        (),
        PatternError,
    >)
        requires
            old(self)@.wf(),
            forall|i: int| 0 <= i < row_1@.len() ==> #[trigger] row_1@[i] < old(self)@.nodes.len(),
            forall|i: int| 0 <= i < row_2@.len() ==> #[trigger] row_2@[i] < old(self)@.nodes.len(),
        ensures
            final(self)@.wf(),
            final(self)@.nodes == old(self)@.nodes,
            r is Ok <==> row_1@.len() == row_2@.len(),
            r is Err ==> r == Err::<(), PatternError>(PatternError::SewInvalidLengths)
                && final(self)@ == old(self)@,
            r is Ok ==> final(self)@.edges == old(self)@.edges + Seq::new(
                row_1@.len(),
                |i: int| (Edge { from: row_1@[i], to: row_2@[i], ty: EdgeType::Sew }),
            ),
    {
        if row_1.len() == row_2.len() {
            let ghost sewn = Seq::new(
                row_1@.len(),
                |i: int| (Edge { from: row_1@[i], to: row_2@[i], ty: EdgeType::Sew }),
            );
            let mut i: usize = 0;
            while i < row_1.len()
                invariant
                    row_1@.len() == row_2@.len(),
                    i <= row_1@.len(),
                    self@.wf(),
                    self@.nodes == old(self)@.nodes,
                    forall|k: int| 0 <= k < row_1@.len() ==> #[trigger] row_1@[k] < self@.nodes.len(),
                    forall|k: int| 0 <= k < row_2@.len() ==> #[trigger] row_2@[k] < self@.nodes.len(),
                    sewn == Seq::new(
                        row_1@.len(),
                        |k: int| (Edge { from: row_1@[k], to: row_2@[k], ty: EdgeType::Sew }),
                    ),
                    self@.edges == old(self)@.edges + sewn.take(i as int),
                decreases row_1@.len() - i,
            {
                self.graph.add_edge(row_1[i], row_2[i], EdgeType::Sew);
                proof {
                    assert(self@.edges =~= old(self)@.edges + sewn.take(i as int + 1));
                }
                i = i + 1;
            }
            proof {
                assert(sewn.take(row_1@.len() as int) =~= sewn);
            }
            Ok(())
        } else {
            Err(PatternError::SewInvalidLengths)
        }
    }
}

/// The direction in which [`Part::skip`] advances along the insertion row.
#[derive(PartialEq, Eq, Structural, Clone, Copy, Debug)]
pub enum SkipDirection {
    /// Towards higher indices of the previous row.
    Forward,
    /// Towards lower indices of the previous row.
    Reverse,
}

/// The current insertion target of a part.
#[derive(PartialEq, Eq, Structural, Clone, Copy, Debug)]
pub enum InsertPoint {
    /// No insertion point has been set.
    Unset,
    /// The next stitch is worked into this node.
    At(usize),
    /// The insertion point was advanced past the end of the row: the skip
    /// that leaves the row's final position still succeeds and parks the
    /// cursor here; any further skip, or stitch worked here, fails with
    /// [`PatternError::EndOfRow`].
    Exhausted,
}

/// The mathematical value of a [`Part`]: its cursor and row bookkeeping.
pub ghost struct PartModel {
    pub start: usize,
    pub prev: usize,
    pub insert: InsertPoint,
    pub chsp: Option<Seq<usize>>,
    pub rows: Seq<Seq<usize>>,
    pub dir: SkipDirection,
    pub ignore: bool,
    pub color: Rgb,
}

/// A crochet part: a stateful builder cursor over a [`Pattern`]'s graph.
/// Operations take the pattern explicitly; the part holds only handles.
pub struct Part {
    start: usize,
    prev: usize,
    insert: InsertPoint,
    current_ch_sp: Option<Vec<usize>>,
    rows: Vec<Vec<usize>>,
    direction: SkipDirection,
    ignore_for_row: bool,
    current_color: Rgb,
}

impl View for Part {
    type V = PartModel;

    closed spec fn view(&self) -> PartModel {
        PartModel {
            start: self.start,
            prev: self.prev,
            insert: self.insert,
            chsp: match self.current_ch_sp {
                None => None,
                Some(v) => Some(v@),
            },
            rows: Seq::new(self.rows@.len(), |i: int| self.rows@[i]@),
            dir: self.direction,
            ignore: self.ignore_for_row,
            color: self.current_color,
        }
    }
}

impl PartModel {
    /// All handles held by the part are valid in the graph, and there is
    /// always at least one row.
    pub open spec fn wf_in(self, g: GraphModel) -> bool {
        &&& self.rows.len() >= 1
        &&& self.start < g.nodes.len()
        &&& self.prev < g.nodes.len()
        &&& (self.insert matches InsertPoint::At(h) ==> h < g.nodes.len())
        &&& (self.chsp is Some ==> (forall|i: int|
            0 <= i < self.chsp->Some_0.len() ==> #[trigger] self.chsp->Some_0[i]
                < g.nodes.len()))
        &&& forall|i: int, j: int|
            0 <= i < self.rows.len() && 0 <= j < self.rows[i].len()
                ==> #[trigger] self.rows[i][j] < g.nodes.len()
    }
}

impl Part {
    /// The part's handles are valid in the given pattern.
    pub open spec fn wf(self, p: Pattern) -> bool {
        self@.wf_in(p@)
    }

    /// The last worked stitch in the part.
    pub fn prev(&self) -> (r: usize)
        ensures
            r == self@.prev,
    {
        self.prev
    }

    /// The first worked stitch in the part.
    pub fn start(&self) -> (r: usize)
        ensures
            r == self@.start,
    {
        self.start
    }

    /// Sets the current insertion point.
    pub fn set_insert(&mut self, insert: usize)
        ensures
            final(self)@ == (PartModel { insert: InsertPoint::At(insert), ..old(self)@ }),
    {
        self.insert = InsertPoint::At(insert);
    }

    /// The current insertion point, if one is set and not exhausted.
    pub fn insert(&self) -> (r: Option<usize>)
        ensures
            r == (match self@.insert {
                InsertPoint::At(h) => Some(h),
                _ => None::<usize>,
            }),
    {
        match self.insert {
            InsertPoint::At(h) => Some(h),
            _ => None,
        }
    }

    /// Sets whether newly worked stitches are excluded from row bookkeeping.
    pub fn set_ignore(&mut self, ignore: bool)
        ensures
            final(self)@ == (PartModel { ignore, ..old(self)@ }),
    {
        self.ignore_for_row = ignore;
    }

    /// Changes the colour applied to subsequently created stitches.
    pub fn change_color(&mut self, color: Rgb)
        ensures
            final(self)@ == (PartModel { color, ..old(self)@ }),
    {
        self.current_color = color;
    }

    /// All stitches in the current row.
    pub fn current_row(&self) -> (r: Result<&Vec<usize>, PatternError>)
        ensures
            self@.rows.len() > 0 ==> (r matches Ok(v) && v@ == self@.rows.last()),
            self@.rows.len() == 0 ==> r == Err::<&Vec<usize>, PatternError>(PatternError::NoRows),
    {
        if self.rows.len() > 0 {
            Ok(&self.rows[self.rows.len() - 1])
        } else {
            Err(PatternError::NoRows)
        }
    }

    /// Mutable access to the stitches of the current row.
    pub fn current_row_mut(&mut self) -> (r: Result<&mut Vec<usize>, PatternError>)
        ensures
            old(self)@.rows.len() > 0 ==> (r matches Ok(v) && v@ == old(self)@.rows.last()
                && final(self)@.rows.len() == old(self)@.rows.len() && final(self)@.rows.last()
                == final(v)@ && (forall|i: int|
                0 <= i < old(self)@.rows.len() - 1 ==> final(self)@.rows[i] == old(
                    self,
                )@.rows[i]) && final(self)@ == (PartModel {
                rows: final(self)@.rows,
                ..old(self)@
            })),
            old(self)@.rows.len() == 0 ==> r is Err && final(self)@ == old(self)@ && r
                == Err::<&mut Vec<usize>, PatternError>(PatternError::NoRows),
    {
        if self.rows.len() > 0 {
            let idx = self.rows.len() - 1;
            Ok(&mut self.rows[idx])
        } else {
            Err(PatternError::NoRows)
        }
    }

    /// All stitches in the previous row: the insertion row for skips.
    pub fn previous_row(&self) -> (r: Result<&Vec<usize>, PatternError>)
        ensures
            self@.rows.len() >= 2 ==> (r matches Ok(v) && v@ == self@.rows[self@.rows.len() - 2]),
            self@.rows.len() < 2 ==> r == Err::<&Vec<usize>, PatternError>(PatternError::NoRows),
    {
        if self.rows.len() >= 2 {
            Ok(&self.rows[self.rows.len() - 2])
        } else {
            Err(PatternError::NoRows)
        }
    }
}

/// `i` is the position of the first occurrence of `h` in `row`.
pub open spec fn is_first_index(row: Seq<usize>, h: usize, i: int) -> bool {
    &&& 0 <= i < row.len()
    &&& row[i] == h
    &&& forall|k: int| 0 <= k < i ==> row[k] != h
}

/// The first occurrence of a handle in a row is unique.
pub proof fn lemma_first_index_unique(row: Seq<usize>, h: usize, i: int, j: int)
    requires
        is_first_index(row, h, i),
        is_first_index(row, h, j),
    ensures
        i == j,
{
    if i < j {
        assert(row[i] == h);
    } else if j < i {
        assert(row[j] == h);
    }
}

/// Where the insertion point lands when skipping from position `i` of `row`.
pub open spec fn spec_advance(row: Seq<usize>, dir: SkipDirection, i: int) -> InsertPoint {
    match dir {
        SkipDirection::Forward => if i + 1 < row.len() {
            InsertPoint::At(row[i + 1])
        } else {
            InsertPoint::Exhausted
        },
        SkipDirection::Reverse => if i >= 1 {
            InsertPoint::At(row[i - 1])
        } else {
            InsertPoint::Exhausted
        },
    }
}

/// Appends a handle to the last row of a row list.
pub open spec fn push_last(rows: Seq<Seq<usize>>, h: usize) -> Seq<Seq<usize>> {
    if rows.len() == 0 {
        rows
    } else {
        rows.update(rows.len() - 1, rows.last().push(h))
    }
}

impl PartModel {
    /// The row snapshot that skips traverse: the previous row.
    pub open spec fn insert_row(self) -> Seq<usize> {
        self.rows[self.rows.len() - 2]
    }

    /// The model of [`Part::skip`]: advance the insertion point one position
    /// within the previous row, in the current direction. A skip from the
    /// final position succeeds into [`InsertPoint::Exhausted`]; a skip from
    /// the exhausted state fails with `EndOfRow`.
    pub open spec fn spec_skip(self) -> Result<PartModel, PatternError> {
        if self.rows.len() < 2 {
            Err(PatternError::NoRows)
        } else {
            match self.insert {
                InsertPoint::Unset => Err(PatternError::NoInsert),
                InsertPoint::Exhausted => Err(PatternError::EndOfRow),
                InsertPoint::At(h) => if exists|i: int| is_first_index(self.insert_row(), h, i) {
                    let i = choose|i: int| is_first_index(self.insert_row(), h, i);
                    Ok(PartModel { insert: spec_advance(self.insert_row(), self.dir, i), ..self })
                } else {
                    Err(PatternError::EndOfRow)
                },
            }
        }
    }

    /// The model of [`Part::new_row`]: push an empty row and aim the
    /// insertion point at the first handle of the previous row.
    pub open spec fn spec_new_row(self) -> (Self, Result<(), PatternError>) {
        let pushed = PartModel { rows: self.rows.push(Seq::empty()), ..self };
        if self.rows.len() < 1 {
            (pushed, Err(PatternError::NoRows))
        } else if self.rows.last().len() == 0 {
            (pushed, Err(PatternError::EndOfRow))
        } else {
            (
                PartModel {
                    rows: self.rows.push(Seq::empty()),
                    insert: InsertPoint::At(self.rows.last()[0]),
                    ..self
                },
                Ok(()),
            )
        }
    }
}

/// The model of [`Part::chain`]: a fresh chain stitch linked to the last
/// worked stitch, recorded in the open chain space and the current row.
pub open spec fn spec_chain(pm: PartModel, g: GraphModel) -> (PartModel, GraphModel, usize) {
    let h = g.nodes.len() as usize;
    let g2 = GraphModel {
        nodes: g.nodes.push(
            Node::Stitch { kind: StitchKind::Chain, turn: false, color: pm.color },
        ),
        edges: g.edges.push(Edge { from: h, to: pm.prev, ty: EdgeType::Previous }),
    };
    let pm2 = PartModel {
        prev: h,
        chsp: match pm.chsp {
            None => None,
            Some(acc) => Some(acc.push(h)),
        },
        rows: if pm.ignore {
            pm.rows
        } else {
            push_last(pm.rows, h)
        },
        ..pm
    };
    (pm2, g2, h)
}

/// The model of [`Part::dc_noskip`]: a double crochet worked into the current
/// insertion point, without advancing it. The stitch node and its Previous
/// edge are created before the insertion point is read, as the builder does.
pub open spec fn spec_dc_noskip(pm: PartModel, g: GraphModel) -> (
    PartModel,
    GraphModel,
    Result<usize, PatternError>,
) {
    let h = g.nodes.len() as usize;
    let g1 = GraphModel {
        nodes: g.nodes.push(Node::Stitch { kind: StitchKind::Dc, turn: false, color: pm.color }),
        edges: g.edges.push(Edge { from: h, to: pm.prev, ty: EdgeType::Previous }),
    };
    match pm.insert {
        InsertPoint::Unset => (pm, g1, Err(PatternError::NoInsert)),
        InsertPoint::Exhausted => (pm, g1, Err(PatternError::EndOfRow)),
        InsertPoint::At(t) => {
            let g2 = GraphModel {
                nodes: g1.nodes,
                edges: g1.edges.push(Edge { from: h, to: t, ty: EdgeType::Insert }),
            };
            let pm2 = PartModel {
                prev: h,
                rows: if pm.ignore {
                    pm.rows
                } else {
                    push_last(pm.rows, h)
                },
                ..pm
            };
            (pm2, g2, Ok(h))
        },
    }
}

/// The model of [`Part::dc`]: a double crochet followed by a skip.
pub open spec fn spec_dc(pm: PartModel, g: GraphModel) -> (
    PartModel,
    GraphModel,
    Result<usize, PatternError>,
) {
    let (pm1, g1, r1) = spec_dc_noskip(pm, g);
    match r1 {
        Err(e) => (pm1, g1, Err(e)),
        Ok(h) => match pm1.spec_skip() {
            Err(e) => (pm1, g1, Err(e)),
            Ok(pm2) => (pm2, g1, Ok(h)),
        },
    }
}

/// The model of [`Part::dec`]: one decrease stitch worked over two successive
/// insertion points, consuming exactly two slots of the previous row.
pub open spec fn spec_dec(pm: PartModel, g: GraphModel) -> (
    PartModel,
    GraphModel,
    Result<usize, PatternError>,
) {
    let h = g.nodes.len() as usize;
    let g1 = GraphModel {
        nodes: g.nodes.push(Node::Stitch { kind: StitchKind::Dec, turn: false, color: pm.color }),
        edges: g.edges.push(Edge { from: h, to: pm.prev, ty: EdgeType::Previous }),
    };
    match pm.insert {
        InsertPoint::Unset => (pm, g1, Err(PatternError::NoInsert)),
        InsertPoint::Exhausted => (pm, g1, Err(PatternError::EndOfRow)),
        InsertPoint::At(t1) => {
            let g2 = GraphModel {
                nodes: g1.nodes,
                edges: g1.edges.push(Edge { from: h, to: t1, ty: EdgeType::Insert }),
            };
            match pm.spec_skip() {
                Err(e) => (pm, g2, Err(e)),
                Ok(pm1) => match pm1.insert {
                    InsertPoint::Unset => (pm1, g2, Err(PatternError::NoInsert)),
                    InsertPoint::Exhausted => (pm1, g2, Err(PatternError::EndOfRow)),
                    InsertPoint::At(t2) => {
                        let g3 = GraphModel {
                            nodes: g2.nodes,
                            edges: g2.edges.push(Edge { from: h, to: t2, ty: EdgeType::Insert }),
                        };
                        match pm1.spec_skip() {
                            Err(e) => (pm1, g3, Err(e)),
                            Ok(pm2) => {
                                let pm3 = PartModel {
                                    prev: h,
                                    rows: if pm.ignore {
                                        pm2.rows
                                    } else {
                                        push_last(pm2.rows, h)
                                    },
                                    ..pm2
                                };
                                (pm3, g3, Ok(h))
                            },
                        }
                    },
                },
            }
        },
    }
}

/// The model of [`Part::turn_noskip`]: a new row opened by a turn-marked
/// chain, with the insertion point aimed at the stitch before the turn and
/// the direction reversed.
pub open spec fn spec_turn_noskip(pm: PartModel, g: GraphModel) -> (
    PartModel,
    GraphModel,
    Result<(), PatternError>,
) {
    let (pm1, rnr) = pm.spec_new_row();
    match rnr {
        Err(e) => (pm1, g, Err(e)),
        Ok(_) => {
            let h = g.nodes.len() as usize;
            let g1 = GraphModel {
                nodes: g.nodes.push(
                    Node::Stitch { kind: StitchKind::Chain, turn: true, color: pm.color },
                ),
                edges: g.edges.push(Edge { from: h, to: pm.prev, ty: EdgeType::Previous }),
            };
            let pm2 = PartModel {
                insert: InsertPoint::At(pm.prev),
                dir: SkipDirection::Reverse,
                rows: push_last(pm1.rows, h),
                prev: h,
                ..pm1
            };
            (pm2, g1, Ok(()))
        },
    }
}

/// The model of [`Part::turn`]: a turn followed by a skip.
pub open spec fn spec_turn(pm: PartModel, g: GraphModel) -> (
    PartModel,
    GraphModel,
    Result<(), PatternError>,
) {
    let (pm1, g1, r1) = spec_turn_noskip(pm, g);
    match r1 {
        Err(e) => (pm1, g1, Err(e)),
        Ok(_) => match pm1.spec_skip() {
            Err(e) => (pm1, g1, Err(e)),
            Ok(pm2) => (pm2, g1, Ok(())),
        },
    }
}

impl Part {
    /// Starts a new row. The empty row is pushed first; when the previous row
    /// is empty the operation then fails with [`PatternError::EndOfRow`].
    pub fn new_row(&mut self) -> (r: Result<(), PatternError>)
        ensures
            ({
                let (pm, r2) = old(self)@.spec_new_row();
                &&& final(self)@ == pm
                &&& r == r2
            }),
            forall|g: GraphModel| old(self)@.wf_in(g) ==> #[trigger] final(self)@.wf_in(g),
    {
        self.rows.push(Vec::new());
        proof {
            assert(self@.rows =~= old(self)@.rows.push(Seq::empty()));
        }
        if self.rows.len() < 2 {
            return Err(PatternError::NoRows);
        }
        let prev_row_idx = self.rows.len() - 2;
        if self.rows[prev_row_idx].len() == 0 {
            return Err(PatternError::EndOfRow);
        }
        self.insert = InsertPoint::At(self.rows[prev_row_idx][0]);
        Ok(())
    }

    /// Advances the insertion point one position within the previous row, in
    /// the current direction.
    ///
    /// A skip from the row's final position still succeeds and parks the
    /// cursor in the exhausted state; only a further skip — one more than
    /// the row has slots — fails with [`PatternError::EndOfRow`]. That
    /// boundary reading is the one the rest of the builder depends on: a
    /// row of `n` double crochets worked over an `n`-slot row ends with
    /// exactly one boundary skip, and a decrease with a single slot left
    /// fails with `EndOfRow` on reading its second slot. Over-skipping is
    /// never a silent no-op. A skip whose insertion point is not in the
    /// previous row also fails with `EndOfRow`; one with no insertion point
    /// set at all fails with [`PatternError::NoInsert`].
    pub fn skip(&mut self) -> (r: Result<(), PatternError>)
        ensures
            ({
                match old(self)@.spec_skip() {
                    Ok(pm) => r is Ok && final(self)@ == pm,
                    Err(e) => r == Err::<(), PatternError>(e) && final(self)@ == old(self)@,
                }
            }),
            forall|g: GraphModel| old(self)@.wf_in(g) ==> #[trigger] final(self)@.wf_in(g),
    {
        if self.rows.len() < 2 {
            return Err(PatternError::NoRows);
        }
        let row_idx = self.rows.len() - 2;
        match self.insert {
            InsertPoint::Unset => Err(PatternError::NoInsert),
            InsertPoint::Exhausted => Err(PatternError::EndOfRow),
            InsertPoint::At(h) => {
                let ghost row = self@.insert_row();
                let row_len = self.rows[row_idx].len();
                let mut i: usize = 0;
                let mut found = false;
                while i < row_len && !found
                    invariant
                        row == self@.insert_row(),
                        row_len == row.len(),
                        row_idx == self@.rows.len() - 2,
                        self@.rows.len() >= 2,
                        i <= row_len,
                        !found ==> forall|k: int| 0 <= k < i ==> row[k] != h,
                        found ==> is_first_index(row, h, i as int),
                    decreases row_len - i, (if found { 0int } else { 1int }),
                {
                    if self.rows[row_idx][i] == h {
                        found = true;
                    } else {
                        i = i + 1;
                    }
                }
                if !found {
                    return Err(PatternError::EndOfRow);
                }
                proof {
                    let j = choose|j: int| is_first_index(row, h, j);
                    lemma_first_index_unique(row, h, i as int, j);
                }
                match self.direction {
                    SkipDirection::Forward => {
                        if i + 1 < row_len {
                            self.insert = InsertPoint::At(self.rows[row_idx][i + 1]);
                        } else {
                            self.insert = InsertPoint::Exhausted;
                        }
                    },
                    SkipDirection::Reverse => {
                        if i >= 1 {
                            self.insert = InsertPoint::At(self.rows[row_idx][i - 1]);
                        } else {
                            self.insert = InsertPoint::Exhausted;
                        }
                    },
                }
                Ok(())
            },
        }
    }
}


/// Every edge kept by [`remove_touching`] occurs in the edge list it was
/// drawn from.
pub proof fn lemma_remove_touching_subset(edges: Seq<Edge>, h: usize)
    ensures
        forall|i: int|
            0 <= i < remove_touching(edges, h).len() ==> edges.contains(
                #[trigger] remove_touching(edges, h)[i],
            ),
    decreases edges.len(),
{
    if edges.len() > 0 {
        lemma_remove_touching_subset(edges.drop_last(), h);
        assert forall|i: int|
            0 <= i < remove_touching(edges, h).len() implies edges.contains(
            #[trigger] remove_touching(edges, h)[i],
        ) by {
            let kept = remove_touching(edges, h);
            let rest = remove_touching(edges.drop_last(), h);
            if i < rest.len() {
                let e = rest[i];
                let j = choose|j: int| 0 <= j < edges.drop_last().len() && edges.drop_last()[j] == e;
                assert(edges[j] == e);
            } else {
                assert(kept[i] == edges.last());
                assert(edges[edges.len() - 1] == edges.last());
            }
        }
    }
}

impl Part {
    /// Creates a new chain stitch linked to the last worked stitch.
    pub fn chain(&mut self, p: &mut Pattern) -> (r: Result<usize, PatternError>)
        requires
            old(self)@.wf_in(old(p)@),
            old(p)@.wf(),
        ensures
            final(self)@.wf_in(final(p)@),
            final(p)@.wf(),
            ({
                let (pm2, g2, h) = spec_chain(old(self)@, old(p)@);
                &&& r == Ok::<usize, PatternError>(h)
                &&& final(self)@ == pm2
                &&& final(p)@ == g2
            }),
    {
        let h = p.graph.add_node(
            Node::Stitch { kind: StitchKind::Chain, turn: false, color: self.current_color },
        );
        p.graph.add_edge(h, self.prev, EdgeType::Previous);
        self.prev = h;
        if let Some(acc) = &mut self.current_ch_sp {
            acc.push(h);
        }
        if !self.ignore_for_row {
            if let Some(mut row) = self.rows.pop() {
                row.push(h);
                self.rows.push(row);
                proof {
                    assert(self@.rows =~= push_last(old(self)@.rows, h));
                }
            } else {
                return Err(PatternError::NoRows);
            }
        }
        Ok(h)
    }

    /// Creates a new double crochet in the current insertion point without
    /// advancing it. The stitch node and its Previous edge are created before
    /// the insertion point is read, so they remain in the graph on failure.
    pub fn dc_noskip(&mut self, p: &mut Pattern) -> (r: Result<usize, PatternError>)
        requires
            old(self)@.wf_in(old(p)@),
            old(p)@.wf(),
        ensures
            final(self)@.wf_in(final(p)@),
            final(p)@.wf(),
            ({
                let (pm2, g2, r2) = spec_dc_noskip(old(self)@, old(p)@);
                &&& r == r2
                &&& final(self)@ == pm2
                &&& final(p)@ == g2
            }),
    {
        let h = p.graph.add_node(
            Node::Stitch { kind: StitchKind::Dc, turn: false, color: self.current_color },
        );
        p.graph.add_edge(h, self.prev, EdgeType::Previous);
        let t = match self.insert {
            InsertPoint::Unset => {
                return Err(PatternError::NoInsert);
            },
            InsertPoint::Exhausted => {
                return Err(PatternError::EndOfRow);
            },
            InsertPoint::At(t) => t,
        };
        p.graph.add_edge(h, t, EdgeType::Insert);
        self.prev = h;
        if !self.ignore_for_row {
            if let Some(mut row) = self.rows.pop() {
                row.push(h);
                self.rows.push(row);
                proof {
                    assert(self@.rows =~= push_last(old(self)@.rows, h));
                }
            } else {
                return Err(PatternError::NoRows);
            }
        }
        Ok(h)
    }

    /// Creates a new double crochet in the current insertion point, then
    /// skips to the next one.
    pub fn dc(&mut self, p: &mut Pattern) -> (r: Result<usize, PatternError>)
        requires
            old(self)@.wf_in(old(p)@),
            old(p)@.wf(),
        ensures
            final(self)@.wf_in(final(p)@),
            final(p)@.wf(),
            ({
                let (pm2, g2, r2) = spec_dc(old(self)@, old(p)@);
                &&& r == r2
                &&& final(self)@ == pm2
                &&& final(p)@ == g2
            }),
    {
        let n = self.dc_noskip(p)?;
        self.skip()?;
        Ok(n)
    }

    /// Creates a new decrease stitch over the next two insertion points,
    /// consuming exactly two slots of the previous row.
    pub fn dec(&mut self, p: &mut Pattern) -> (r: Result<usize, PatternError>)
        requires
            old(self)@.wf_in(old(p)@),
            old(p)@.wf(),
        ensures
            final(self)@.wf_in(final(p)@),
            final(p)@.wf(),
            ({
                let (pm2, g2, r2) = spec_dec(old(self)@, old(p)@);
                &&& r == r2
                &&& final(self)@ == pm2
                &&& final(p)@ == g2
            }),
    {
        let h = p.graph.add_node(
            Node::Stitch { kind: StitchKind::Dec, turn: false, color: self.current_color },
        );
        p.graph.add_edge(h, self.prev, EdgeType::Previous);
        let t1 = match self.insert {
            InsertPoint::Unset => {
                return Err(PatternError::NoInsert);
            },
            InsertPoint::Exhausted => {
                return Err(PatternError::EndOfRow);
            },
            InsertPoint::At(t) => t,
        };
        p.graph.add_edge(h, t1, EdgeType::Insert);
        self.skip()?;
        let t2 = match self.insert {
            InsertPoint::Unset => {
                return Err(PatternError::NoInsert);
            },
            InsertPoint::Exhausted => {
                return Err(PatternError::EndOfRow);
            },
            InsertPoint::At(t) => t,
        };
        p.graph.add_edge(h, t2, EdgeType::Insert);
        self.skip()?;
        self.prev = h;
        if !self.ignore_for_row {
            if let Some(mut row) = self.rows.pop() {
                row.push(h);
                self.rows.push(row);
                proof {
                    assert(self@.rows =~= push_last(old(self)@.rows, h));
                }
            } else {
                return Err(PatternError::NoRows);
            }
        }
        Ok(h)
    }

    /// Works an increase: two double crochets into the same insertion point.
    pub fn inc(&mut self, p: &mut Pattern) -> (r: Result<(usize, usize), PatternError>)
        requires
            old(self)@.wf_in(old(p)@),
            old(p)@.wf(),
        ensures
            final(self)@.wf_in(final(p)@),
            final(p)@.wf(),
            ({
                let (pm1, g1, r1) = spec_dc_noskip(old(self)@, old(p)@);
                match r1 {
                    Err(e) => {
                        &&& r == Err::<(usize, usize), PatternError>(e)
                        &&& final(self)@ == pm1
                        &&& final(p)@ == g1
                    },
                    Ok(s1) => {
                        let (pm2, g2, r2) = spec_dc(pm1, g1);
                        match r2 {
                            Err(e) => {
                                &&& r == Err::<(usize, usize), PatternError>(e)
                                &&& final(self)@ == pm2
                                &&& final(p)@ == g2
                            },
                            Ok(s2) => {
                                &&& r == Ok::<(usize, usize), PatternError>((s1, s2))
                                &&& final(self)@ == pm2
                                &&& final(p)@ == g2
                            },
                        }
                    },
                }
            }),
    {
        let s1 = self.dc_noskip(p)?;
        let s2 = self.dc(p)?;
        Ok((s1, s2))
    }

    /// Turns the work: starts a new row with a turn-marked chain, reverses
    /// the skip direction, then skips once.
    pub fn turn(&mut self, p: &mut Pattern) -> (r: Result<(), PatternError>)
        requires
            old(self)@.wf_in(old(p)@),
            old(p)@.wf(),
        ensures
            final(self)@.wf_in(final(p)@),
            final(p)@.wf(),
            ({
                let (pm2, g2, r2) = spec_turn(old(self)@, old(p)@);
                &&& r == r2
                &&& final(self)@ == pm2
                &&& final(p)@ == g2
            }),
    {
        self.turn_noskip(p)?;
        self.skip()?;
        Ok(())
    }

    /// Turns the work without skipping at the start of the next row.
    pub fn turn_noskip(&mut self, p: &mut Pattern) -> (r: Result<(), PatternError>)
        requires
            old(self)@.wf_in(old(p)@),
            old(p)@.wf(),
        ensures
            final(self)@.wf_in(final(p)@),
            final(p)@.wf(),
            ({
                let (pm2, g2, r2) = spec_turn_noskip(old(self)@, old(p)@);
                &&& r == r2
                &&& final(self)@ == pm2
                &&& final(p)@ == g2
            }),
    {
        self.new_row()?;
        self.insert = InsertPoint::At(self.prev);
        self.direction = SkipDirection::Reverse;
        let h = p.graph.add_node(
            Node::Stitch { kind: StitchKind::Chain, turn: true, color: self.current_color },
        );
        p.graph.add_edge(h, self.prev, EdgeType::Previous);
        if let Some(mut row) = self.rows.pop() {
            row.push(h);
            self.rows.push(row);
            proof {
                assert(self@.rows =~= push_last(old(self)@.rows.push(Seq::empty()), h));
            }
        } else {
            return Err(PatternError::NoRows);
        }
        self.prev = h;
        Ok(())
    }

    /// Works a slip stitch from the last worked stitch into the given one.
    pub fn slip_stitch(&mut self, p: &mut Pattern, into: usize)
        requires
            old(self)@.wf_in(old(p)@),
            old(p)@.wf(),
            into < old(p)@.nodes.len(),
        ensures
            final(self)@ == old(self)@,
            final(self)@.wf_in(final(p)@),
            final(p)@.wf(),
            final(p)@.nodes == old(p)@.nodes,
            final(p)@.edges == old(p)@.edges.push(
                (Edge { from: old(self)@.prev, to: into, ty: EdgeType::Slip }),
            ),
    {
        p.graph.add_edge(self.prev, into, EdgeType::Slip);
    }

    /// Starts a chain space: begins accumulating worked stitches, starting
    /// with the last worked one.
    pub fn start_ch_sp(&mut self) -> (r: Result<(), PatternError>)
        ensures
            old(self)@.chsp is Some ==> r == Err::<(), PatternError>(
                PatternError::NestedChainSpace,
            ) && final(self)@ == old(self)@,
            old(self)@.chsp is None ==> r is Ok && final(self)@ == (PartModel {
                chsp: Some(seq![old(self)@.prev]),
                ..old(self)@
            }),
            forall|g: GraphModel| old(self)@.wf_in(g) ==> #[trigger] final(self)@.wf_in(g),
    {
        if self.current_ch_sp.is_some() {
            return Err(PatternError::NestedChainSpace);
        }
        let mut acc: Vec<usize> = Vec::new();
        acc.push(self.prev);
        self.current_ch_sp = Some(acc);
        proof {
            assert(acc@ =~= seq![old(self)@.prev]);
        }
        Ok(())
    }

    /// Ends the chain space: creates a chain space node with a Neighbour edge
    /// to every accumulated stitch.
    pub fn end_ch_sp(&mut self, p: &mut Pattern) -> (r: Result<usize, PatternError>)
        requires
            old(self)@.wf_in(old(p)@),
            old(p)@.wf(),
        ensures
            final(self)@.wf_in(final(p)@),
            final(p)@.wf(),
            old(self)@.chsp is None ==> r == Err::<usize, PatternError>(PatternError::NoChainSpace)
                && final(self)@ == old(self)@ && final(p)@ == old(p)@,
            ({
                old(self)@.chsp matches Some(acc) ==> {
                    let h = old(p)@.nodes.len() as usize;
                    &&& r == Ok::<usize, PatternError>(h)
                    &&& final(p)@.nodes == old(p)@.nodes.push(Node::ChainSpace)
                    &&& final(p)@.edges == old(p)@.edges + Seq::new(
                        acc.len(),
                        |i: int| (Edge { from: h, to: acc[i], ty: EdgeType::Neighbour }),
                    )
                    &&& final(self)@ == (PartModel { chsp: None::<Seq<usize>>, ..old(self)@ })
                }
            }),
    {
        let taken = self.current_ch_sp.take();
        match taken {
            None => Err(PatternError::NoChainSpace),
            Some(acc) => {
                proof {
                    assert(taken == old(self).current_ch_sp);
                    assert(old(self)@.chsp->Some_0 == acc@);
                    assert(forall|k: int|
                        0 <= k < acc@.len() ==> #[trigger] acc@[k] < old(p)@.nodes.len());
                }
                let h = p.graph.add_node(Node::ChainSpace);
                let ghost added = Seq::new(
                    acc@.len(),
                    |i: int| (Edge { from: h, to: acc@[i], ty: EdgeType::Neighbour }),
                );
                let mut i: usize = 0;
                while i < acc.len()
                    invariant
                        i <= acc@.len(),
                        h < p@.nodes.len(),
                        p@.nodes == old(p)@.nodes.push(Node::ChainSpace),
                        forall|k: int| 0 <= k < acc@.len() ==> #[trigger] acc@[k] < p@.nodes.len(),
                        added == Seq::new(
                            acc@.len(),
                            |k: int| (Edge { from: h, to: acc@[k], ty: EdgeType::Neighbour }),
                        ),
                        p@.edges == old(p)@.edges + added.take(i as int),
                    decreases acc@.len() - i,
                {
                    p.graph.add_edge(h, acc[i], EdgeType::Neighbour);
                    proof {
                        assert(p@.edges =~= old(p)@.edges + added.take(i as int + 1));
                    }
                    i = i + 1;
                }
                proof {
                    assert(added.take(acc@.len() as int) =~= added);
                }
                Ok(h)
            },
        }
    }

    /// Replaces the starting chain with a magic ring, keeping its handle but
    /// dropping every edge incident to it.
    pub fn magic_ring(&mut self, p: &mut Pattern)
        requires
            old(self)@.wf_in(old(p)@),
            old(p)@.wf(),
        ensures
            final(self)@.wf_in(final(p)@),
            final(p)@.wf(),
            final(p)@.nodes == old(p)@.nodes.update(old(self)@.start as int, Node::MagicRing),
            final(p)@.edges == remove_touching(old(p)@.edges, old(self)@.start),
            final(self)@ == (PartModel { prev: old(self)@.start, ..old(self)@ }),
    {
        p.graph.set_node(self.start, Node::MagicRing);
        p.graph.remove_edges_at(self.start);
        self.prev = self.start;
        proof {
            lemma_remove_touching_subset(old(p)@.edges, old(self)@.start);
        }
    }
}


impl PartModel {
    /// How many insertion slots remain from the current insertion point to
    /// the end of the previous row, in the current direction.
    pub open spec fn slots_left(self) -> int {
        if self.rows.len() < 2 {
            0
        } else {
            match self.insert {
                InsertPoint::Unset => 0,
                InsertPoint::Exhausted => 0,
                InsertPoint::At(h) => if exists|i: int|
                    is_first_index(self.insert_row(), h, i) {
                    let i = choose|i: int| is_first_index(self.insert_row(), h, i);
                    match self.dir {
                        SkipDirection::Forward => self.insert_row().len() - i,
                        SkipDirection::Reverse => i + 1,
                    }
                } else {
                    0
                },
            }
        }
    }

    /// The insertion row holds no repeated handles. The builder operations
    /// only ever append freshly created handles to rows, so this holds of
    /// every row they produce.
    pub open spec fn insert_row_distinct(self) -> bool {
        forall|j: int, k: int|
            0 <= j < k < self.insert_row().len() ==> self.insert_row()[j]
                != self.insert_row()[k]
    }
}

/// Law: a skip on an exhausted insertion point fails with `EndOfRow`; it
/// never silently leaves the part unchanged behind an `Ok`.
pub proof fn lemma_skip_exhausted_fails(pm: PartModel)
    requires
        pm.rows.len() >= 2,
        pm.insert is Exhausted,
    ensures
        pm.spec_skip() == Err::<PartModel, PatternError>(PatternError::EndOfRow),
{
}

/// Law: a successful skip consumes exactly one insertion slot.
pub proof fn lemma_skip_consumes_one_slot(pm: PartModel)
    requires
        pm.rows.len() >= 2,
        pm.insert_row_distinct(),
        pm.spec_skip() is Ok,
    ensures
        pm.spec_skip()->Ok_0.slots_left() == pm.slots_left() - 1,
{
    let h = pm.insert->At_0;
    let row = pm.insert_row();
    let i = choose|i: int| is_first_index(row, h, i);
    let res = pm.spec_skip()->Ok_0;
    assert(res.insert_row() == row);
    assert(res.insert == spec_advance(row, pm.dir, i));
    match pm.dir {
        SkipDirection::Forward => {
            if i + 1 < row.len() {
                assert(res.insert == InsertPoint::At(row[i + 1]));
                assert(exists|k: int| is_first_index(res.insert_row(), res.insert->At_0, k)) by {
                    assert(is_first_index(res.insert_row(), res.insert->At_0, i + 1));
                }
                let k = choose|k: int| is_first_index(res.insert_row(), res.insert->At_0, k);
                lemma_first_index_unique(res.insert_row(), res.insert->At_0, i + 1, k);
                assert(res.slots_left() == res.insert_row().len() - (i + 1));
            } else {
                assert(res.insert is Exhausted);
                assert(res.slots_left() == 0);
            }
        },
        SkipDirection::Reverse => {
            if i >= 1 {
                assert(res.insert == InsertPoint::At(row[i - 1]));
                assert(exists|k: int| is_first_index(res.insert_row(), res.insert->At_0, k)) by {
                    assert(is_first_index(res.insert_row(), res.insert->At_0, i - 1));
                }
                let k = choose|k: int| is_first_index(res.insert_row(), res.insert->At_0, k);
                lemma_first_index_unique(res.insert_row(), res.insert->At_0, i - 1, k);
                assert(res.slots_left() == (i - 1) + 1);
            } else {
                assert(res.insert is Exhausted);
                assert(res.slots_left() == 0);
            }
        },
    }
}

/// Law: a successful decrease consumes exactly two insertion-row slots.
pub proof fn lemma_dec_consumes_two_slots(pm: PartModel, g: GraphModel)
    requires
        pm.rows.len() >= 2,
        pm.insert_row_distinct(),
        spec_dec(pm, g).2 is Ok,
    ensures
        spec_dec(pm, g).0.slots_left() == pm.slots_left() - 2,
{
    let pm1 = pm.spec_skip()->Ok_0;
    lemma_skip_consumes_one_slot(pm);
    assert(pm1.insert_row() == pm.insert_row());
    lemma_skip_consumes_one_slot(pm1);
    let pm2 = pm1.spec_skip()->Ok_0;
    let pm3 = spec_dec(pm, g).0;
    assert(pm3.insert_row() == pm2.insert_row()) by {
        assert(pm3.rows.len() == pm2.rows.len());
        assert(pm3.rows[pm3.rows.len() - 2] == pm2.rows[pm2.rows.len() - 2]);
    }
    assert(pm3.slots_left() == pm2.slots_left());
}

/// Law: a decrease worked when only one insertion slot is left fails with
/// `EndOfRow` on its second insertion.
pub proof fn lemma_dec_single_slot_fails(pm: PartModel, g: GraphModel)
    requires
        pm.rows.len() >= 2,
        pm.insert_row_distinct(),
        pm.slots_left() == 1,
    ensures
        spec_dec(pm, g).2 == Err::<usize, PatternError>(PatternError::EndOfRow),
{
    let h = pm.insert->At_0;
    let row = pm.insert_row();
    let i = choose|i: int| is_first_index(row, h, i);
    assert(pm.insert is At);
    assert(pm.spec_skip()->Ok_0.insert is Exhausted);
}

/// The row's handles are strictly increasing: stitches are recorded in
/// creation order, and handles are created in increasing order.
pub open spec fn strictly_increasing(row: Seq<usize>) -> bool {
    forall|a: int, b: int| 0 <= a < b < row.len() ==> row[a] < row[b]
}

/// Appending a handle larger than all entries keeps a row strictly
/// increasing.
pub proof fn lemma_push_increasing(row: Seq<usize>, h: usize)
    requires
        strictly_increasing(row),
        forall|a: int| 0 <= a < row.len() ==> row[a] < h,
    ensures
        strictly_increasing(row.push(h)),
{
}

/// Appending a freshly created handle to the current row keeps it strictly
/// increasing: every recorded handle is older, hence smaller.
pub proof fn lemma_push_last_increasing(pm: PartModel, g: GraphModel, h: usize)
    requires
        pm.wf_in(g),
        pm.rows.len() >= 1,
        strictly_increasing(pm.rows.last()),
        g.nodes.len() == h as nat,
    ensures
        push_last(pm.rows, h).last() == pm.rows.last().push(h),
        strictly_increasing(push_last(pm.rows, h).last()),
{
    assert(pm.rows.last() == pm.rows[pm.rows.len() - 1]);
    assert forall|a: int| 0 <= a < pm.rows.last().len() implies pm.rows.last()[a] < h by {
        assert(pm.rows[pm.rows.len() - 1][a] < g.nodes.len());
    }
    lemma_push_increasing(pm.rows.last(), h);
}

/// On a duplicate-free insertion row, a skip from position `k` lands where
/// [`spec_advance`] says.
pub proof fn lemma_skip_at(pm: PartModel, k: int)
    requires
        pm.rows.len() >= 2,
        strictly_increasing(pm.insert_row()),
        0 <= k < pm.insert_row().len(),
        pm.insert == InsertPoint::At(pm.insert_row()[k]),
    ensures
        pm.spec_skip() == Ok::<PartModel, PatternError>(
            (PartModel { insert: spec_advance(pm.insert_row(), pm.dir, k), ..pm }),
        ),
{
    let row = pm.insert_row();
    let h = pm.insert->At_0;
    assert(is_first_index(row, h, k)) by {
        assert forall|a: int| 0 <= a < k implies row[a] != h by {
            assert(row[a] < row[k]);
        }
    }
    assert(exists|i: int| is_first_index(row, h, i));
    let i = choose|i: int| is_first_index(row, h, i);
    lemma_first_index_unique(row, h, k, i);
}

/// The number of edges of type `ty` leaving node `v`.
pub open spec fn out_count(edges: Seq<Edge>, v: usize, ty: EdgeType) -> int
    decreases edges.len(),
{
    if edges.len() == 0 {
        0
    } else {
        out_count(edges.drop_last(), v, ty) + if edges.last().from == v && edges.last().ty
            == ty {
            1int
        } else {
            0
        }
    }
}

/// Appending one edge raises exactly the matching outgoing count.
pub proof fn lemma_out_count_push(edges: Seq<Edge>, e: Edge, v: usize, ty: EdgeType)
    ensures
        out_count(edges.push(e), v, ty) == out_count(edges, v, ty) + if e.from == v && e.ty
            == ty {
            1int
        } else {
            0
        },
{
    assert(edges.push(e).drop_last() =~= edges);
    assert(edges.push(e).last() == e);
}

/// A node that no edge leaves has outgoing count zero.
pub proof fn lemma_out_count_zero(edges: Seq<Edge>, v: usize, ty: EdgeType)
    requires
        forall|i: int| 0 <= i < edges.len() ==> (#[trigger] edges[i]).from != v,
    ensures
        out_count(edges, v, ty) == 0,
    decreases edges.len(),
{
    if edges.len() > 0 {
        lemma_out_count_zero(edges.drop_last(), v, ty);
        assert(edges[edges.len() - 1] == edges.last());
    }
}

/// Outgoing counts add up over concatenation.
pub proof fn lemma_out_count_concat(a: Seq<Edge>, b: Seq<Edge>, v: usize, ty: EdgeType)
    ensures
        out_count(a + b, v, ty) == out_count(a, v, ty) + out_count(b, v, ty),
    decreases b.len(),
{
    if b.len() == 0 {
        assert(a + b =~= a);
    } else {
        lemma_out_count_concat(a, b.drop_last(), v, ty);
        assert((a + b).drop_last() =~= a + b.drop_last());
        assert((a + b).last() == b.last());
    }
}

/// A list of edges all leaving `v` with type `ty` counts its own length.
pub proof fn lemma_out_count_all(edges: Seq<Edge>, v: usize, ty: EdgeType)
    requires
        forall|i: int|
            0 <= i < edges.len() ==> (#[trigger] edges[i]).from == v && edges[i].ty == ty,
    ensures
        out_count(edges, v, ty) == edges.len(),
    decreases edges.len(),
{
    if edges.len() > 0 {
        lemma_out_count_all(edges.drop_last(), v, ty);
        assert(edges[edges.len() - 1] == edges.last());
    }
}

/// Law: a fresh chain stitch leaves the builder with exactly one outgoing
/// Previous edge, and the edges of every other node are untouched — every
/// stitch but a part's very first carries exactly one Previous link.
pub proof fn lemma_chain_previous_degree(pm: PartModel, g: GraphModel)
    requires
        g.wf(),
        g.nodes.len() < usize::MAX,
    ensures
        ({
            let (pm2, g2, h) = spec_chain(pm, g);
            &&& out_count(g2.edges, h, EdgeType::Previous) == 1
            &&& forall|v: usize, ty: EdgeType|
                v != h ==> #[trigger] out_count(g2.edges, v, ty) == out_count(g.edges, v, ty)
        }),
{
    let h = g.nodes.len() as usize;
    let e = Edge { from: h, to: pm.prev, ty: EdgeType::Previous };
    assert forall|i: int| 0 <= i < g.edges.len() implies (#[trigger] g.edges[i]).from != h by {
        assert(g.edges[i].from < g.nodes.len());
    }
    lemma_out_count_zero(g.edges, h, EdgeType::Previous);
    lemma_out_count_push(g.edges, e, h, EdgeType::Previous);
    assert forall|v: usize, ty: EdgeType|
        v != h implies #[trigger] out_count(g.edges.push(e), v, ty) == out_count(
        g.edges,
        v,
        ty,
    ) by {
        lemma_out_count_push(g.edges, e, v, ty);
    }
}

/// Law: a successful double crochet carries exactly one outgoing Previous
/// edge and exactly one outgoing Insert edge, and touches no other node's
/// edges.
pub proof fn lemma_dc_degrees(pm: PartModel, g: GraphModel)
    requires
        g.wf(),
        g.nodes.len() < usize::MAX,
        spec_dc_noskip(pm, g).2 is Ok,
    ensures
        ({
            let (pm2, g2, r2) = spec_dc_noskip(pm, g);
            let h = g.nodes.len() as usize;
            &&& out_count(g2.edges, h, EdgeType::Previous) == 1
            &&& out_count(g2.edges, h, EdgeType::Insert) == 1
            &&& forall|v: usize, ty: EdgeType|
                v != h ==> #[trigger] out_count(g2.edges, v, ty) == out_count(g.edges, v, ty)
        }),
{
    let h = g.nodes.len() as usize;
    let t = pm.insert->At_0;
    let e1 = Edge { from: h, to: pm.prev, ty: EdgeType::Previous };
    let e2 = Edge { from: h, to: t, ty: EdgeType::Insert };
    assert forall|i: int| 0 <= i < g.edges.len() implies (#[trigger] g.edges[i]).from != h by {
        assert(g.edges[i].from < g.nodes.len());
    }
    lemma_out_count_zero(g.edges, h, EdgeType::Previous);
    lemma_out_count_zero(g.edges, h, EdgeType::Insert);
    lemma_out_count_push(g.edges, e1, h, EdgeType::Previous);
    lemma_out_count_push(g.edges, e1, h, EdgeType::Insert);
    lemma_out_count_push(g.edges.push(e1), e2, h, EdgeType::Previous);
    lemma_out_count_push(g.edges.push(e1), e2, h, EdgeType::Insert);
    assert forall|v: usize, ty: EdgeType|
        v != h implies #[trigger] out_count(g.edges.push(e1).push(e2), v, ty) == out_count(
        g.edges,
        v,
        ty,
    ) by {
        lemma_out_count_push(g.edges, e1, v, ty);
        lemma_out_count_push(g.edges.push(e1), e2, v, ty);
    }
}

/// Law: a successful decrease carries exactly one outgoing Previous edge
/// and exactly two outgoing Insert edges — it is worked over two insertion
/// points.
pub proof fn lemma_dec_degrees(pm: PartModel, g: GraphModel)
    requires
        g.wf(),
        g.nodes.len() < usize::MAX,
        spec_dec(pm, g).2 is Ok,
    ensures
        ({
            let (pm2, g2, r2) = spec_dec(pm, g);
            let h = g.nodes.len() as usize;
            &&& out_count(g2.edges, h, EdgeType::Previous) == 1
            &&& out_count(g2.edges, h, EdgeType::Insert) == 2
        }),
{
    let h = g.nodes.len() as usize;
    let t1 = pm.insert->At_0;
    let pm1 = pm.spec_skip()->Ok_0;
    let t2 = pm1.insert->At_0;
    let e1 = Edge { from: h, to: pm.prev, ty: EdgeType::Previous };
    let e2 = Edge { from: h, to: t1, ty: EdgeType::Insert };
    let e3 = Edge { from: h, to: t2, ty: EdgeType::Insert };
    assert forall|i: int| 0 <= i < g.edges.len() implies (#[trigger] g.edges[i]).from != h by {
        assert(g.edges[i].from < g.nodes.len());
    }
    lemma_out_count_zero(g.edges, h, EdgeType::Previous);
    lemma_out_count_zero(g.edges, h, EdgeType::Insert);
    lemma_out_count_push(g.edges, e1, h, EdgeType::Previous);
    lemma_out_count_push(g.edges, e1, h, EdgeType::Insert);
    lemma_out_count_push(g.edges.push(e1), e2, h, EdgeType::Previous);
    lemma_out_count_push(g.edges.push(e1), e2, h, EdgeType::Insert);
    lemma_out_count_push(g.edges.push(e1).push(e2), e3, h, EdgeType::Previous);
    lemma_out_count_push(g.edges.push(e1).push(e2), e3, h, EdgeType::Insert);
}

/// Law: a chain space node is joined to every accumulated stitch and so has
/// at least one Neighbour edge — the accumulator always starts with the
/// stitch that opened it.
pub proof fn lemma_chain_space_neighbours(acc: Seq<usize>, g: GraphModel)
    requires
        g.wf(),
        g.nodes.len() < usize::MAX,
        acc.len() >= 1,
    ensures
        ({
            let h = g.nodes.len() as usize;
            let added = Seq::new(
                acc.len(),
                |i: int| (Edge { from: h, to: acc[i], ty: EdgeType::Neighbour }),
            );
            out_count(g.edges + added, h, EdgeType::Neighbour) == acc.len()
        }),
{
    let h = g.nodes.len() as usize;
    let added = Seq::new(
        acc.len(),
        |i: int| (Edge { from: h, to: acc[i], ty: EdgeType::Neighbour }),
    );
    assert forall|i: int| 0 <= i < g.edges.len() implies (#[trigger] g.edges[i]).from != h by {
        assert(g.edges[i].from < g.nodes.len());
    }
    lemma_out_count_zero(g.edges, h, EdgeType::Neighbour);
    lemma_out_count_all(added, h, EdgeType::Neighbour);
    lemma_out_count_concat(g.edges, added, h, EdgeType::Neighbour);
}

/// On a duplicate-free insertion row, an increase worked at position `k`
/// runs to completion: two double crochets into the same stitch, the
/// insertion point advanced once.
pub proof fn lemma_inc_runs(pm: PartModel, g: GraphModel, k: int)
    requires
        pm.rows.len() >= 2,
        strictly_increasing(pm.insert_row()),
        0 <= k < pm.insert_row().len(),
        pm.insert == InsertPoint::At(pm.insert_row()[k]),
        pm.ignore == false,
        g.nodes.len() < usize::MAX,
    ensures
        ({
            let (pm1, g1, r1) = spec_dc_noskip(pm, g);
            let (pm2, g2, r2) = spec_dc(pm1, g1);
            &&& r1 is Ok
            &&& r2 is Ok
            &&& pm2.insert == spec_advance(pm.insert_row(), pm.dir, k)
            &&& pm2.insert_row() == pm.insert_row()
            &&& pm2.rows.len() == pm.rows.len()
            &&& pm2.rows.last() == pm.rows.last().push((g.nodes.len() as usize)).push(
                ((g.nodes.len() + 1) as usize),
            )
            &&& pm2.dir == pm.dir
            &&& pm2.chsp == pm.chsp
            &&& pm2.ignore == pm.ignore
            &&& g2.nodes.len() == g.nodes.len() + 2
        }),
{
    let h1 = g.nodes.len() as usize;
    let (pm1, g1, r1) = spec_dc_noskip(pm, g);
    assert(pm1.insert_row() == pm.insert_row());
    let h2 = (g.nodes.len() + 1) as usize;
    assert(g1.nodes.len() == h2 as nat);
    let pm1b = PartModel { prev: h2, rows: push_last(pm1.rows, h2), ..pm1 };
    assert(pm1b.insert_row() == pm.insert_row());
    lemma_skip_at(pm1b, k);
    let (pm2, g2, r2) = spec_dc(pm1, g1);
    assert(r2 is Ok);
    assert(pm2.rows.last() == pm.rows.last().push(h1).push(h2));
}

/// The model of [`Pattern::add_part`]: a fresh white foundation chain and a
/// part whose first row holds it.
pub open spec fn spec_add_part(g: GraphModel) -> (PartModel, GraphModel) {
    let h = g.nodes.len() as usize;
    (
        PartModel {
            start: h,
            prev: h,
            insert: InsertPoint::Unset,
            chsp: None,
            rows: seq![seq![h]],
            dir: SkipDirection::Forward,
            ignore: false,
            color: Rgb { r: 255, g: 255, b: 255 },
        },
        GraphModel {
            nodes: g.nodes.push(
                Node::Stitch {
                    kind: StitchKind::Chain,
                    turn: false,
                    color: Rgb { r: 255, g: 255, b: 255 },
                },
            ),
            edges: g.edges,
        },
    )
}

/// The model of working `k` chain stitches in a row.
pub open spec fn spec_chain_n(pm: PartModel, g: GraphModel, k: nat) -> (PartModel, GraphModel)
    decreases k,
{
    if k == 0 {
        (pm, g)
    } else {
        let (pm1, g1) = spec_chain_n(pm, g, (k - 1) as nat);
        let (pm2, g2, h) = spec_chain(pm1, g1);
        (pm2, g2)
    }
}

/// The model of working `k` double crochets in a row.
pub open spec fn spec_dc_n(pm: PartModel, g: GraphModel, k: nat) -> (PartModel, GraphModel)
    decreases k,
{
    if k == 0 {
        (pm, g)
    } else {
        let (pm1, g1) = spec_dc_n(pm, g, (k - 1) as nat);
        let (pm2, g2, r) = spec_dc(pm1, g1);
        (pm2, g2)
    }
}

/// The model of `rows` grid rows: each is a turn followed by `n` double
/// crochets.
pub open spec fn spec_grid_rows(pm: PartModel, g: GraphModel, n: nat, rows: nat) -> (
    PartModel,
    GraphModel,
)
    decreases rows,
{
    if rows == 0 {
        (pm, g)
    } else {
        let (pm1, g1) = spec_grid_rows(pm, g, n, (rows - 1) as nat);
        let (pm2, g2, r) = spec_turn(pm1, g1);
        spec_dc_n(pm2, g2, n)
    }
}

/// The complete model of the flat grid recipe: a part on an empty pattern,
/// `n` foundation chains, then `n` rows of `n` double crochets.
pub open spec fn spec_flat_grid(n: nat) -> (PartModel, GraphModel) {
    let s0 = spec_add_part(GraphModel { nodes: Seq::empty(), edges: Seq::empty() });
    let s1 = spec_chain_n(s0.0, s0.1, n);
    spec_grid_rows(s1.0, s1.1, n, n)
}

/// The number of turn-marked nodes in a node sequence.
pub open spec fn turn_count(nodes: Seq<Node>) -> int
    decreases nodes.len(),
{
    if nodes.len() == 0 {
        0
    } else {
        turn_count(nodes.drop_last()) + if nodes.last().spec_is_turn() {
            1int
        } else {
            0
        }
    }
}

/// Appending one node raises the turn count exactly when it is a turn.
pub proof fn lemma_turn_count_push(nodes: Seq<Node>, x: Node)
    ensures
        turn_count(nodes.push(x)) == turn_count(nodes) + if x.spec_is_turn() {
            1int
        } else {
            0
        },
{
    assert(nodes.push(x).drop_last() =~= nodes);
    assert(nodes.push(x).last() == x);
}

/// Builds a flat sheet: a foundation of `n` chains, then `n` rows of `n`
/// double crochets each, turning between rows. The grid recipe always
/// succeeds, and the whole resulting graph is pinned against
/// [`spec_flat_grid`]: two runs for the same `n` build equal patterns, so
/// [`Pattern::isomorphic`] always accepts them.
pub fn test_pattern_flat(n: u32) -> (r: Result<Pattern, PatternError>)
    requires
        n < 10000,
    ensures
        r is Ok,
        r matches Ok(p) ==> p@.wf() && p@.nodes.len() == 1 + 2 * n + n * n && p@.edges.len() == 2
            * n + 2 * n * n && turn_count(p@.nodes) == n,
        r matches Ok(p) ==> p@ == spec_flat_grid(n as nat).1,
{
    let mut pattern = Pattern::new();
    let ghost s0 = spec_add_part(
        GraphModel { nodes: Seq::<Node>::empty(), edges: Seq::<Edge>::empty() },
    );
    let ghost g_init = pattern@;
    let mut part = pattern.add_part();
    proof {
        assert(turn_count(pattern@.nodes) == 0) by {
            lemma_turn_count_push(
                Seq::empty(),
                Node::Stitch {
                    kind: StitchKind::Chain,
                    turn: false,
                    color: Rgb { r: 255, g: 255, b: 255 },
                },
            );
            assert(Seq::<Node>::empty().push(
                Node::Stitch {
                    kind: StitchKind::Chain,
                    turn: false,
                    color: Rgb { r: 255, g: 255, b: 255 },
                },
            ) =~= pattern@.nodes);
        }
        assert(g_init.nodes =~= Seq::<Node>::empty());
        assert(g_init.edges =~= Seq::<Edge>::empty());
        assert(pattern@ == s0.1);
        assert(part@ == s0.0);
    }
    let mut i: u32 = 0;
    while i < n
        invariant
            i <= n,
            part@.wf_in(pattern@),
            pattern@.wf(),
            pattern@.nodes.len() == 1 + i,
            pattern@.edges.len() == i,
            turn_count(pattern@.nodes) == 0,
            part@ == spec_chain_n(s0.0, s0.1, i as nat).0,
            pattern@ == spec_chain_n(s0.0, s0.1, i as nat).1,
            part@.rows.len() == 1,
            part@.rows.last().len() == 1 + i,
            strictly_increasing(part@.rows.last()),
            part@.prev == part@.rows.last().last(),
            part@.ignore == false,
            part@.chsp is None,
        decreases n - i,
    {
        let ghost pm0 = part@;
        let ghost g0 = pattern@;
        let h = pattern.graph().node_count();
        part.chain(&mut pattern)?;
        proof {
            lemma_turn_count_push(g0.nodes, pattern@.nodes.last());
            assert(pm0.rows.last() == pm0.rows[pm0.rows.len() - 1]);
            assert forall|a: int| 0 <= a < pm0.rows.last().len() implies pm0.rows.last()[a]
                < h by {
                assert(pm0.rows[pm0.rows.len() - 1][a] < g0.nodes.len());
            }
            lemma_push_increasing(pm0.rows.last(), h);
            assert(part@.rows.last() == pm0.rows.last().push(h));
            assert(part@ == spec_chain_n(s0.0, s0.1, (i + 1) as nat).0);
            assert(pattern@ == spec_chain_n(s0.0, s0.1, (i + 1) as nat).1);
        }
        i = i + 1;
    }
    let ghost s1p = part@;
    let ghost s1g = pattern@;
    let mut row: u32 = 0;
    while row < n
        invariant
            row <= n,
            part@.wf_in(pattern@),
            pattern@.wf(),
            pattern@.nodes.len() == 1 + n + row * (1 + n),
            pattern@.edges.len() == n + row * (1 + 2 * n),
            turn_count(pattern@.nodes) == row,
            part@ == spec_grid_rows(s1p, s1g, n as nat, row as nat).0,
            pattern@ == spec_grid_rows(s1p, s1g, n as nat, row as nat).1,
            part@.rows.len() == 1 + row,
            part@.rows.last().len() == n + 1,
            strictly_increasing(part@.rows.last()),
            part@.prev == part@.rows.last().last(),
            part@.ignore == false,
            part@.chsp is None,
        decreases n - row,
    {
        let ghost pm0 = part@;
        let ghost g0 = pattern@;
        let ghost prow = pm0.rows.last();
        let h_turn = pattern.graph().node_count();
        proof {
            // the turn's own skip starts from the previous row's last stitch
            let (pm1, rnr) = pm0.spec_new_row();
            assert(rnr is Ok);
            let h = h_turn;
            let pm2 = PartModel {
                insert: InsertPoint::At(pm0.prev),
                dir: SkipDirection::Reverse,
                rows: push_last(pm1.rows, h),
                prev: h,
                ..pm1
            };
            assert(pm2.insert_row() == prow);
            assert(pm0.prev == prow[n as int]);
            lemma_skip_at(pm2, n as int);
            assert(spec_turn(pm0, g0).2 is Ok);
        }
        part.turn(&mut pattern)?;
        proof {
            lemma_turn_count_push(g0.nodes, pattern@.nodes.last());
        }
        let ghost srp = part@;
        let ghost srg = pattern@;
        let mut j: u32 = 0;
        while j < n
            invariant
                j <= n,
                row < n,
                part@.wf_in(pattern@),
                pattern@.wf(),
                pattern@.nodes.len() == 1 + n + row * (1 + n) + 1 + j,
                pattern@.edges.len() == n + row * (1 + 2 * n) + 1 + 2 * j,
                turn_count(pattern@.nodes) == row + 1,
                part@ == spec_dc_n(srp, srg, j as nat).0,
                pattern@ == spec_dc_n(srp, srg, j as nat).1,
                part@.rows.len() == 2 + row,
                part@.insert_row() == prow,
                prow.len() == n + 1,
                strictly_increasing(prow),
                part@.dir == SkipDirection::Reverse,
                j < n ==> part@.insert == InsertPoint::At(prow[n - 1 - j as int]),
                j == n ==> part@.insert is Exhausted,
                part@.rows.last().len() == 1 + j,
                strictly_increasing(part@.rows.last()),
                part@.prev == part@.rows.last().last(),
                part@.ignore == false,
                part@.chsp is None,
            decreases n - j,
        {
            let ghost pm = part@;
            let ghost g = pattern@;
            let h = pattern.graph().node_count();
            proof {
                let pm1 = PartModel { prev: h, rows: push_last(pm.rows, h), ..pm };
                assert(pm1.insert_row() == prow);
                lemma_skip_at(pm1, n - 1 - j as int);
                assert(spec_dc(pm, g).2 is Ok);
            }
            part.dc(&mut pattern)?;
            proof {
                lemma_turn_count_push(g.nodes, pattern@.nodes.last());
                assert(pm.rows.last() == pm.rows[pm.rows.len() - 1]);
                assert forall|a: int| 0 <= a < pm.rows.last().len() implies pm.rows.last()[a]
                    < h by {
                    assert(pm.rows[pm.rows.len() - 1][a] < g.nodes.len());
                }
                lemma_push_increasing(pm.rows.last(), h);
                assert(part@.rows.last() == pm.rows.last().push(h));
                assert(part@ == spec_dc_n(srp, srg, (j + 1) as nat).0);
                assert(pattern@ == spec_dc_n(srp, srg, (j + 1) as nat).1);
            }
            j = j + 1;
        }
        proof {
            assert((row + 1) * (1 + n) == row * (1 + n) + (1 + n)) by (nonlinear_arith);
            assert((row + 1) * (1 + 2 * n) == row * (1 + 2 * n) + (1 + 2 * n))
                by (nonlinear_arith);
            assert(part@ == spec_grid_rows(s1p, s1g, n as nat, (row + 1) as nat).0);
            assert(pattern@ == spec_grid_rows(s1p, s1g, n as nat, (row + 1) as nat).1);
        }
        row = row + 1;
    }
    proof {
        assert(n * (1 + n) == n + n * n) by (nonlinear_arith);
        assert(n * (1 + 2 * n) == n + 2 * n * n) by (nonlinear_arith);
        assert(pattern@ == spec_flat_grid(n as nat).1);
    }
    Ok(pattern)
}

/// Builds a disc worked in spiral rounds: a chain-space ring, six double
/// crochets into it, then rounds that each increase six times. The recipe
/// always succeeds, and the size of its graph is pinned exactly.
pub fn test_pattern_spiral_rounds() -> (r: Result<Pattern, PatternError>)
    ensures
        r is Ok,
        r matches Ok(p) ==> p@.wf() && p@.nodes.len() == 1390 && p@.edges.len() == 2778,
{
    let mut pattern = Pattern::new();
    let mut part = pattern.add_part();

    part.start_ch_sp()?;
    let start = part.prev();
    let mut c: u32 = 0;
    while c < 2
        invariant
            c <= 2,
            part@.wf_in(pattern@),
            pattern@.wf(),
            start < pattern@.nodes.len(),
            pattern@.nodes.len() == 1 + c,
            pattern@.edges.len() == c,
            part@.rows.len() == 1,
            part@.rows.last().len() == 1 + c,
            strictly_increasing(part@.rows.last()),
            part@.dir == SkipDirection::Forward,
            (part@.chsp matches Some(acc) && acc.len() == 1 + c),
            part@.ignore == false,
        decreases 2 - c,
    {
        let ghost pm0 = part@;
        let ghost g0 = pattern@;
        let h = pattern.graph().node_count();
        part.chain(&mut pattern)?;
        proof {
            assert(pm0.rows.last() == pm0.rows[pm0.rows.len() - 1]);
            assert forall|a: int| 0 <= a < pm0.rows.last().len() implies pm0.rows.last()[a]
                < h by {
                assert(pm0.rows[pm0.rows.len() - 1][a] < g0.nodes.len());
            }
            lemma_push_increasing(pm0.rows.last(), h);
            assert(part@.rows.last() == pm0.rows.last().push(h));
        }
        c = c + 1;
    }
    part.slip_stitch(&mut pattern, start);
    let ch_sp = part.end_ch_sp(&mut pattern)?;

    part.new_row()?;
    part.set_insert(ch_sp);
    let mut k: u32 = 0;
    while k < 6
        invariant
            k <= 6,
            part@.wf_in(pattern@),
            pattern@.wf(),
            pattern@.nodes.len() == 4 + k,
            pattern@.edges.len() == 6 + 2 * k,
            part@.rows.len() == 2,
            part@.insert is At,
            part@.rows.last().len() == k,
            strictly_increasing(part@.rows.last()),
            part@.dir == SkipDirection::Forward,
            part@.chsp is None,
            part@.ignore == false,
        decreases 6 - k,
    {
        let ghost pm0 = part@;
        let ghost g0 = pattern@;
        let h = pattern.graph().node_count();
        part.dc_noskip(&mut pattern)?;
        proof {
            assert(pm0.rows.last() == pm0.rows[pm0.rows.len() - 1]);
            assert forall|a: int| 0 <= a < pm0.rows.last().len() implies pm0.rows.last()[a]
                < h by {
                assert(pm0.rows[pm0.rows.len() - 1][a] < g0.nodes.len());
            }
            lemma_push_increasing(pm0.rows.last(), h);
            assert(part@.rows.last() == pm0.rows.last().push(h));
        }
        k = k + 1;
    }

    part.new_row()?;
    let ghost prow1 = part@.rows[part@.rows.len() - 2];
    let mut k2: u32 = 0;
    while k2 < 6
        invariant
            k2 <= 6,
            part@.wf_in(pattern@),
            pattern@.wf(),
            pattern@.nodes.len() == 10 + 2 * k2,
            pattern@.edges.len() == 18 + 4 * k2,
            part@.rows.len() == 3,
            part@.insert_row() == prow1,
            prow1.len() == 6,
            strictly_increasing(prow1),
            part@.dir == SkipDirection::Forward,
            k2 < 6 ==> part@.insert == InsertPoint::At(prow1[k2 as int]),
            k2 == 6 ==> part@.insert is Exhausted,
            part@.rows.last().len() == 2 * k2,
            strictly_increasing(part@.rows.last()),
            part@.chsp is None,
            part@.ignore == false,
        decreases 6 - k2,
    {
        let ghost pm0 = part@;
        let ghost g0 = pattern@;
        let h = pattern.graph().node_count();
        part.dc_noskip(&mut pattern)?;
        proof {
            assert(pm0.rows.last() == pm0.rows[pm0.rows.len() - 1]);
            assert forall|a: int| 0 <= a < pm0.rows.last().len() implies pm0.rows.last()[a]
                < h by {
                assert(pm0.rows[pm0.rows.len() - 1][a] < g0.nodes.len());
            }
            lemma_push_increasing(pm0.rows.last(), h);
            assert(part@.rows.last() == pm0.rows.last().push(h));
        }
        let ghost pm = part@;
        let ghost g = pattern@;
        let h2 = pattern.graph().node_count();
        proof {
            let pm1 = PartModel { prev: h2, rows: push_last(pm.rows, h2), ..pm };
            assert(pm1.insert_row() == prow1);
            lemma_skip_at(pm1, k2 as int);
            assert(spec_dc(pm, g).2 is Ok);
        }
        part.dc(&mut pattern)?;
        proof {
            assert(pm.rows.last() == pm.rows[pm.rows.len() - 1]);
            assert forall|a: int| 0 <= a < pm.rows.last().len() implies pm.rows.last()[a]
                < h2 by {
                assert(pm.rows[pm.rows.len() - 1][a] < g.nodes.len());
            }
            lemma_push_increasing(pm.rows.last(), h2);
            assert(part@.rows.last() == pm.rows.last().push(h2));
        }
        k2 = k2 + 1;
    }

    let mut j: u32 = 1;
    while j < 20
        invariant
            1 <= j <= 20,
            part@.wf_in(pattern@),
            pattern@.wf(),
            pattern@.nodes.len() == 22 + 3 * (j - 1) * (j + 4),
            pattern@.edges.len() == 42 + 6 * (j - 1) * (j + 4),
            part@.rows.len() == 2 + j,
            part@.rows.last().len() == 6 * (j + 1),
            strictly_increasing(part@.rows.last()),
            part@.dir == SkipDirection::Forward,
            part@.chsp is None,
            part@.ignore == false,
        decreases 20 - j,
    {
        part.new_row()?;
        let ghost prow = part@.rows[part@.rows.len() - 2];
        let mut t: u32 = 0;
        while t < 6
            invariant
                t <= 6,
                1 <= j < 20,
                part@.wf_in(pattern@),
                pattern@.wf(),
                pattern@.nodes.len() == 22 + 3 * (j - 1) * (j + 4) + t * (j + 2),
                pattern@.edges.len() == 42 + 6 * (j - 1) * (j + 4) + t * (2 * j + 4),
                part@.rows.len() == 3 + j,
                part@.insert_row() == prow,
                prow.len() == 6 * (j + 1),
                strictly_increasing(prow),
                part@.dir == SkipDirection::Forward,
                t < 6 ==> part@.insert == InsertPoint::At(prow[t * (j + 1)]),
                t == 6 ==> part@.insert is Exhausted,
                part@.rows.last().len() == t * (j + 2),
                strictly_increasing(part@.rows.last()),
                part@.chsp is None,
                part@.ignore == false,
            decreases 6 - t,
        {
            let mut u: u32 = 0;
            while u < j
                invariant
                    u <= j,
                    1 <= j < 20,
                    t < 6,
                    part@.wf_in(pattern@),
                    pattern@.wf(),
                    pattern@.nodes.len() == 22 + 3 * (j - 1) * (j + 4) + t * (j + 2) + u,
                    pattern@.edges.len() == 42 + 6 * (j - 1) * (j + 4) + t * (2 * j + 4) + 2
                        * u,
                    part@.rows.len() == 3 + j,
                    part@.insert_row() == prow,
                    prow.len() == 6 * (j + 1),
                    strictly_increasing(prow),
                    part@.dir == SkipDirection::Forward,
                    part@.insert == InsertPoint::At(prow[t * (j + 1) + u]),
                    part@.rows.last().len() == t * (j + 2) + u,
                    strictly_increasing(part@.rows.last()),
                    part@.chsp is None,
                    part@.ignore == false,
                decreases j - u,
            {
                let ghost pm = part@;
                let ghost g = pattern@;
                let h = pattern.graph().node_count();
                proof {
                    assert(t * (j + 1) + u + 1 < 6 * (j + 1)) by (nonlinear_arith)
                        requires
                            t < 6,
                            u < j,
                            1 <= j,
                    ;
                    let pm1 = PartModel { prev: h, rows: push_last(pm.rows, h), ..pm };
                    assert(pm1.insert_row() == prow);
                    lemma_skip_at(pm1, t * (j + 1) + u as int);
                    assert(spec_dc(pm, g).2 is Ok);
                }
                part.dc(&mut pattern)?;
                proof {
                    assert(pm.rows.last() == pm.rows[pm.rows.len() - 1]);
                    assert forall|a: int| 0 <= a < pm.rows.last().len() implies pm.rows.last()[a]
                        < h by {
                        assert(pm.rows[pm.rows.len() - 1][a] < g.nodes.len());
                    }
                    lemma_push_increasing(pm.rows.last(), h);
                    assert(part@.rows.last() == pm.rows.last().push(h));
                }
                u = u + 1;
            }
            let ghost pm0 = part@;
            let ghost g0 = pattern@;
            let h = pattern.graph().node_count();
            part.dc_noskip(&mut pattern)?;
            proof {
                assert(pm0.rows.last() == pm0.rows[pm0.rows.len() - 1]);
                assert forall|a: int| 0 <= a < pm0.rows.last().len() implies pm0.rows.last()[a]
                    < h by {
                    assert(pm0.rows[pm0.rows.len() - 1][a] < g0.nodes.len());
                }
                lemma_push_increasing(pm0.rows.last(), h);
                assert(part@.rows.last() == pm0.rows.last().push(h));
            }
            let ghost pm = part@;
            let ghost g = pattern@;
            let h2 = pattern.graph().node_count();
            proof {
                assert(t * (j + 1) + j < 6 * (j + 1)) by (nonlinear_arith)
                    requires
                        t < 6,
                        1 <= j,
                ;
                let pm1 = PartModel { prev: h2, rows: push_last(pm.rows, h2), ..pm };
                assert(pm1.insert_row() == prow);
                lemma_skip_at(pm1, t * (j + 1) + j as int);
                assert(spec_dc(pm, g).2 is Ok);
            }
            part.dc(&mut pattern)?;
            proof {
                assert(pm.rows.last() == pm.rows[pm.rows.len() - 1]);
                assert forall|a: int| 0 <= a < pm.rows.last().len() implies pm.rows.last()[a]
                    < h2 by {
                    assert(pm.rows[pm.rows.len() - 1][a] < g.nodes.len());
                }
                lemma_push_increasing(pm.rows.last(), h2);
                assert(part@.rows.last() == pm.rows.last().push(h2));
                assert((t + 1) * (j + 2) == t * (j + 2) + (j + 2)) by (nonlinear_arith);
                assert((t + 1) * (j + 1) == t * (j + 1) + (j + 1)) by (nonlinear_arith);
                assert((t + 1) * (2 * j + 4) == t * (2 * j + 4) + (2 * j + 4))
                    by (nonlinear_arith);
            }
            t = t + 1;
        }
        proof {
            assert(3 * j * (j + 5) == 3 * (j - 1) * (j + 4) + 6 * (j + 2)) by (nonlinear_arith);
            assert(6 * j * (j + 5) == 6 * (j - 1) * (j + 4) + 12 * j + 24) by (nonlinear_arith);
            assert(6 * (j + 1 + 1) == 6 * (j + 1) + 6) by (nonlinear_arith);
        }
        j = j + 1;
    }
    proof {
        assert(3 * (20 - 1) * (20 + 4) == 1368) by (nonlinear_arith);
        assert(6 * (20 - 1) * (20 + 4) == 2736) by (nonlinear_arith);
    }
    Ok(pattern)
}

/// Builds a closed sphere: a ring, five increasing rounds, seven straight
/// rounds, five decreasing rounds and a final double decrease. The recipe
/// always succeeds, and the size of its graph is pinned exactly.
pub fn test_pattern_sphere() -> (r: Result<Pattern, PatternError>)
    ensures
        r is Ok,
        r matches Ok(p) ==> p@.wf() && p@.nodes.len() == 474 && p@.edges.len() == 978,
{
    let mut pattern = Pattern::new();
    let mut part = pattern.add_part();

    part.start_ch_sp()?;
    let start = part.prev();
    let mut c: u32 = 0;
    while c < 2
        invariant
            c <= 2,
            part@.wf_in(pattern@),
            pattern@.wf(),
            start < pattern@.nodes.len(),
            pattern@.nodes.len() == 1 + c,
            pattern@.edges.len() == c,
            part@.rows.len() == 1,
            part@.rows.last().len() == 1 + c,
            strictly_increasing(part@.rows.last()),
            part@.dir == SkipDirection::Forward,
            (part@.chsp matches Some(acc) && acc.len() == 1 + c),
            part@.ignore == false,
        decreases 2 - c,
    {
        let ghost pm0 = part@;
        let ghost g0 = pattern@;
        let h = pattern.graph().node_count();
        part.chain(&mut pattern)?;
        proof {
            lemma_push_last_increasing(pm0, g0, h);
        }
        c = c + 1;
    }
    part.slip_stitch(&mut pattern, start);
    let ch_sp = part.end_ch_sp(&mut pattern)?;

    part.new_row()?;
    part.set_insert(ch_sp);
    let mut k: u32 = 0;
    while k < 6
        invariant
            k <= 6,
            part@.wf_in(pattern@),
            pattern@.wf(),
            pattern@.nodes.len() == 4 + k,
            pattern@.edges.len() == 6 + 2 * k,
            part@.rows.len() == 2,
            part@.insert is At,
            part@.rows.last().len() == k,
            strictly_increasing(part@.rows.last()),
            part@.dir == SkipDirection::Forward,
            part@.chsp is None,
            part@.ignore == false,
        decreases 6 - k,
    {
        let ghost pm0 = part@;
        let ghost g0 = pattern@;
        let h = pattern.graph().node_count();
        part.dc_noskip(&mut pattern)?;
        proof {
            lemma_push_last_increasing(pm0, g0, h);
        }
        k = k + 1;
    }

    let mut j: u32 = 0;
    while j < 5
        invariant
            j <= 5,
            part@.wf_in(pattern@),
            pattern@.wf(),
            pattern@.nodes.len() == 10 + 3 * j * (j + 3),
            pattern@.edges.len() == 18 + 6 * j * (j + 3),
            part@.rows.len() == 2 + j,
            part@.rows.last().len() == 6 * (j + 1),
            strictly_increasing(part@.rows.last()),
            part@.dir == SkipDirection::Forward,
            part@.chsp is None,
            part@.ignore == false,
        decreases 5 - j,
    {
        part.new_row()?;
        let ghost prow = part@.rows[part@.rows.len() - 2];
        let mut t: u32 = 0;
        while t < 6
            invariant
                t <= 6,
                j < 5,
                part@.wf_in(pattern@),
                pattern@.wf(),
                pattern@.nodes.len() == 10 + 3 * j * (j + 3) + t * (j + 2),
                pattern@.edges.len() == 18 + 6 * j * (j + 3) + t * (2 * j + 4),
                part@.rows.len() == 3 + j,
                part@.insert_row() == prow,
                prow.len() == 6 * (j + 1),
                strictly_increasing(prow),
                part@.dir == SkipDirection::Forward,
                t < 6 ==> part@.insert == InsertPoint::At(prow[t * (j + 1)]),
                t == 6 ==> part@.insert is Exhausted,
                part@.rows.last().len() == t * (j + 2),
                strictly_increasing(part@.rows.last()),
                part@.chsp is None,
                part@.ignore == false,
            decreases 6 - t,
        {
            let mut u: u32 = 0;
            while u < j
                invariant
                    u <= j,
                    j < 5,
                    t < 6,
                    part@.wf_in(pattern@),
                    pattern@.wf(),
                    pattern@.nodes.len() == 10 + 3 * j * (j + 3) + t * (j + 2) + u,
                    pattern@.edges.len() == 18 + 6 * j * (j + 3) + t * (2 * j + 4) + 2 * u,
                    part@.rows.len() == 3 + j,
                    part@.insert_row() == prow,
                    prow.len() == 6 * (j + 1),
                    strictly_increasing(prow),
                    part@.dir == SkipDirection::Forward,
                    part@.insert == InsertPoint::At(prow[t * (j + 1) + u]),
                    part@.rows.last().len() == t * (j + 2) + u,
                    strictly_increasing(part@.rows.last()),
                    part@.chsp is None,
                    part@.ignore == false,
                decreases j - u,
            {
                let ghost pm0 = part@;
                let ghost g0 = pattern@;
                let h = pattern.graph().node_count();
                part.dc_noskip(&mut pattern)?;
                proof {
                    lemma_push_last_increasing(pm0, g0, h);
                }
                let ghost pm = part@;
                proof {
                    assert(t * (j + 1) + u + 1 < 6 * (j + 1)) by (nonlinear_arith)
                        requires
                            t < 6,
                            u < j,
                    ;
                    assert(pm.insert_row() == prow);
                    lemma_skip_at(pm, t * (j + 1) + u as int);
                }
                part.skip()?;
                u = u + 1;
            }
            let ghost pm0 = part@;
            let ghost g0 = pattern@;
            let h = pattern.graph().node_count();
            part.dc_noskip(&mut pattern)?;
            proof {
                lemma_push_last_increasing(pm0, g0, h);
            }
            let ghost pm = part@;
            let ghost g = pattern@;
            let h2 = pattern.graph().node_count();
            proof {
                assert(t * (j + 1) + j < 6 * (j + 1)) by (nonlinear_arith)
                    requires
                        t < 6,
                ;
                let pm1 = PartModel { prev: h2, rows: push_last(pm.rows, h2), ..pm };
                assert(pm1.insert_row() == prow);
                lemma_skip_at(pm1, t * (j + 1) + j as int);
                assert(spec_dc(pm, g).2 is Ok);
            }
            part.dc(&mut pattern)?;
            proof {
                lemma_push_last_increasing(pm, g, h2);
                assert((t + 1) * (j + 2) == t * (j + 2) + (j + 2)) by (nonlinear_arith);
                assert((t + 1) * (j + 1) == t * (j + 1) + (j + 1)) by (nonlinear_arith);
                assert(t + 1 < 6 ==> (t + 1) * (j + 1) < 6 * (j + 1)) by (nonlinear_arith);
                assert((t + 1) * (2 * j + 4) == t * (2 * j + 4) + (2 * j + 4))
                    by (nonlinear_arith);
            }
            t = t + 1;
        }
        proof {
            assert(3 * (j + 1) * (j + 4) == 3 * j * (j + 3) + 6 * (j + 2)) by (nonlinear_arith);
            assert(6 * (j + 1) * (j + 4) == 6 * j * (j + 3) + 12 * j + 24) by (nonlinear_arith);
            assert(6 * (j + 1 + 1) == 6 * (j + 1) + 6) by (nonlinear_arith);
        }
        j = j + 1;
    }
    proof {
        assert(3 * 5 * (5 + 3) == 120) by (nonlinear_arith);
        assert(6 * 5 * (5 + 3) == 240) by (nonlinear_arith);
    }

    let mut round: u32 = 0;
    while round < 7
        invariant
            round <= 7,
            part@.wf_in(pattern@),
            pattern@.wf(),
            pattern@.nodes.len() == 130 + 36 * round,
            pattern@.edges.len() == 258 + 72 * round,
            part@.rows.len() == 7 + round,
            part@.rows.last().len() == 36,
            strictly_increasing(part@.rows.last()),
            part@.dir == SkipDirection::Forward,
            part@.chsp is None,
            part@.ignore == false,
        decreases 7 - round,
    {
        part.new_row()?;
        let ghost prow = part@.rows[part@.rows.len() - 2];
        let mut t: u32 = 0;
        while t < 36
            invariant
                t <= 36,
                round < 7,
                part@.wf_in(pattern@),
                pattern@.wf(),
                pattern@.nodes.len() == 130 + 36 * round + t,
                pattern@.edges.len() == 258 + 72 * round + 2 * t,
                part@.rows.len() == 8 + round,
                part@.insert_row() == prow,
                prow.len() == 36,
                strictly_increasing(prow),
                part@.dir == SkipDirection::Forward,
                t < 36 ==> part@.insert == InsertPoint::At(prow[t as int]),
                t == 36 ==> part@.insert is Exhausted,
                part@.rows.last().len() == t,
                strictly_increasing(part@.rows.last()),
                part@.chsp is None,
                part@.ignore == false,
            decreases 36 - t,
        {
            let ghost pm = part@;
            let ghost g = pattern@;
            let h = pattern.graph().node_count();
            proof {
                let pm1 = PartModel { prev: h, rows: push_last(pm.rows, h), ..pm };
                assert(pm1.insert_row() == prow);
                lemma_skip_at(pm1, t as int);
                assert(spec_dc(pm, g).2 is Ok);
            }
            part.dc(&mut pattern)?;
            proof {
                lemma_push_last_increasing(pm, g, h);
            }
            t = t + 1;
        }
        round = round + 1;
    }

    let mut k3: u32 = 0;
    while k3 < 5
        invariant
            k3 <= 5,
            part@.wf_in(pattern@),
            pattern@.wf(),
            pattern@.nodes.len() == 382 + 3 * k3 * (11 - k3),
            pattern@.edges.len() == 762 + 6 * k3 * (12 - k3),
            part@.rows.len() == 14 + k3,
            part@.rows.last().len() == 6 * (6 - k3),
            strictly_increasing(part@.rows.last()),
            part@.dir == SkipDirection::Forward,
            part@.chsp is None,
            part@.ignore == false,
        decreases 5 - k3,
    {
        let j2 = 4 - k3;
        part.new_row()?;
        let ghost prow = part@.rows[part@.rows.len() - 2];
        let mut t: u32 = 0;
        while t < 6
            invariant
                t <= 6,
                k3 < 5,
                j2 == 4 - k3,
                part@.wf_in(pattern@),
                pattern@.wf(),
                pattern@.nodes.len() == 382 + 3 * k3 * (11 - k3) + t * (j2 + 1),
                pattern@.edges.len() == 762 + 6 * k3 * (12 - k3) + t * (2 * j2 + 3),
                part@.rows.len() == 15 + k3,
                part@.insert_row() == prow,
                prow.len() == 6 * (j2 + 2),
                strictly_increasing(prow),
                part@.dir == SkipDirection::Forward,
                t < 6 ==> part@.insert == InsertPoint::At(prow[t * (j2 + 2)]),
                t == 6 ==> part@.insert is Exhausted,
                part@.rows.last().len() == t * (j2 + 1),
                strictly_increasing(part@.rows.last()),
                part@.chsp is None,
                part@.ignore == false,
            decreases 6 - t,
        {
            let mut u: u32 = 0;
            while u < j2
                invariant
                    u <= j2,
                    k3 < 5,
                    t < 6,
                    j2 == 4 - k3,
                    part@.wf_in(pattern@),
                    pattern@.wf(),
                    pattern@.nodes.len() == 382 + 3 * k3 * (11 - k3) + t * (j2 + 1) + u,
                    pattern@.edges.len() == 762 + 6 * k3 * (12 - k3) + t * (2 * j2 + 3) + 2 * u,
                    part@.rows.len() == 15 + k3,
                    part@.insert_row() == prow,
                    prow.len() == 6 * (j2 + 2),
                    strictly_increasing(prow),
                    part@.dir == SkipDirection::Forward,
                    part@.insert == InsertPoint::At(prow[t * (j2 + 2) + u]),
                    part@.rows.last().len() == t * (j2 + 1) + u,
                    strictly_increasing(part@.rows.last()),
                    part@.chsp is None,
                    part@.ignore == false,
                decreases j2 - u,
            {
                let ghost pm = part@;
                let ghost g = pattern@;
                let h = pattern.graph().node_count();
                proof {
                    assert(t * (j2 + 2) + u + 1 < 6 * (j2 + 2)) by (nonlinear_arith)
                        requires
                            t < 6,
                            u < j2,
                    ;
                    let pm1 = PartModel { prev: h, rows: push_last(pm.rows, h), ..pm };
                    assert(pm1.insert_row() == prow);
                    lemma_skip_at(pm1, t * (j2 + 2) + u as int);
                    assert(spec_dc(pm, g).2 is Ok);
                }
                part.dc(&mut pattern)?;
                proof {
                    lemma_push_last_increasing(pm, g, h);
                }
                u = u + 1;
            }
            let ghost pm = part@;
            let ghost g = pattern@;
            let h = pattern.graph().node_count();
            proof {
                assert(t * (j2 + 2) + j2 + 1 < 6 * (j2 + 2)) by (nonlinear_arith)
                    requires
                        t < 6,
                ;
                assert(pm.insert_row() == prow);
                lemma_skip_at(pm, t * (j2 + 2) + j2 as int);
                let pm1 = pm.spec_skip()->Ok_0;
                assert(pm1.insert_row() == prow);
                lemma_skip_at(pm1, t * (j2 + 2) + j2 + 1);
                assert(spec_dec(pm, g).2 is Ok);
            }
            part.dec(&mut pattern)?;
            proof {
                lemma_push_last_increasing(pm, g, h);
                assert(part@.rows.last() == pm.rows.last().push(h));
                assert((t + 1) * (j2 + 1) == t * (j2 + 1) + (j2 + 1)) by (nonlinear_arith);
                assert((t + 1) * (j2 + 2) == t * (j2 + 2) + (j2 + 2)) by (nonlinear_arith);
                assert(t + 1 < 6 ==> (t + 1) * (j2 + 2) < 6 * (j2 + 2)) by (nonlinear_arith);
                assert((t + 1) * (2 * j2 + 3) == t * (2 * j2 + 3) + (2 * j2 + 3))
                    by (nonlinear_arith);
            }
            t = t + 1;
        }
        proof {
            assert(3 * (k3 + 1) * (11 - (k3 + 1)) == 3 * k3 * (11 - k3) + 6 * (4 - k3 + 1))
                by (nonlinear_arith);
            assert(6 * (k3 + 1) * (12 - (k3 + 1)) == 6 * k3 * (12 - k3) + 6 * (4 - k3) * 2 + 18)
                by (nonlinear_arith);
            assert(6 * (6 - (k3 + 1)) == 6 * (4 - k3 + 1)) by (nonlinear_arith);
        }
        k3 = k3 + 1;
    }
    proof {
        assert(3 * 5 * (11 - 5) == 90) by (nonlinear_arith);
        assert(6 * 5 * (12 - 5) == 210) by (nonlinear_arith);
    }

    part.new_row()?;
    let ghost prow_f = part@.rows[part@.rows.len() - 2];
    let ghost pm_f = part@;
    let ghost g_f = pattern@;
    let h_f = pattern.graph().node_count();
    proof {
        assert(prow_f.len() == 6);
        assert(pm_f.insert == InsertPoint::At(prow_f[0]));
        assert(pm_f.insert_row() == prow_f);
        lemma_skip_at(pm_f, 0);
        let pm1 = pm_f.spec_skip()->Ok_0;
        assert(pm1.insert_row() == prow_f);
        lemma_skip_at(pm1, 1);
        assert(spec_dec(pm_f, g_f).2 is Ok);
    }
    part.dec(&mut pattern)?;
    proof {
        lemma_push_last_increasing(pm_f, g_f, h_f);
    }
    let ghost pm_f2 = part@;
    let ghost g_f2 = pattern@;
    proof {
        assert(pm_f2.insert == InsertPoint::At(prow_f[2]));
        assert(pm_f2.insert_row() == prow_f);
        lemma_skip_at(pm_f2, 2);
        let pm1 = pm_f2.spec_skip()->Ok_0;
        assert(pm1.insert_row() == prow_f);
        lemma_skip_at(pm1, 3);
        assert(spec_dec(pm_f2, g_f2).2 is Ok);
    }
    part.dec(&mut pattern)?;

    Ok(pattern)
}

/// Builds a tube worked in joined rounds: each round is closed with a slip
/// stitch and opened by a turn. The recipe always succeeds, and the size of
/// its graph is pinned exactly.
pub fn test_pattern_joined_rounds() -> (r: Result<Pattern, PatternError>)
    ensures
        r is Ok,
        r matches Ok(p) ==> p@.wf() && p@.nodes.len() == 1518 && p@.edges.len() == 3030,
{
    let mut pattern = Pattern::new();
    let mut part = pattern.add_part();

    let start = part.prev();
    let mut c: u32 = 0;
    while c < 5
        invariant
            c <= 5,
            part@.wf_in(pattern@),
            pattern@.wf(),
            start < pattern@.nodes.len(),
            pattern@.nodes.len() == 1 + c,
            pattern@.edges.len() == c,
            part@.rows.len() == 1,
            part@.rows.last().len() == 1 + c,
            strictly_increasing(part@.rows.last()),
            part@.prev == part@.rows.last().last(),
            part@.chsp is None,
            part@.ignore == false,
        decreases 5 - c,
    {
        let ghost pm0 = part@;
        let ghost g0 = pattern@;
        let h = pattern.graph().node_count();
        part.chain(&mut pattern)?;
        proof {
            lemma_push_last_increasing(pm0, g0, h);
        }
        c = c + 1;
    }
    part.slip_stitch(&mut pattern, start);

    let ghost pm_t = part@;
    let ghost g_t = pattern@;
    proof {
        let (pm1, rnr) = pm_t.spec_new_row();
        assert(rnr is Ok);
        assert(spec_turn_noskip(pm_t, g_t).2 is Ok);
    }
    part.turn_noskip(&mut pattern)?;
    let round_start = part.prev();
    let ghost prow0 = part@.insert_row();
    proof {
        assert(prow0 == pm_t.rows.last());
        assert(pm_t.prev == prow0[5]);
    }

    let ghost pm_d = part@;
    let ghost g_d = pattern@;
    let h_d = pattern.graph().node_count();
    proof {
        let pm1 = PartModel { prev: h_d, rows: push_last(pm_d.rows, h_d), ..pm_d };
        assert(pm1.insert_row() == prow0);
        lemma_skip_at(pm1, 5);
        assert(spec_dc(pm_d, g_d).2 is Ok);
    }
    part.dc(&mut pattern)?;
    proof {
        lemma_push_last_increasing(pm_d, g_d, h_d);
    }

    let mut k: u32 = 0;
    while k < 5
        invariant
            k <= 5,
            part@.wf_in(pattern@),
            pattern@.wf(),
            pattern@.nodes.len() == 8 + 2 * k,
            pattern@.edges.len() == 9 + 4 * k,
            part@.rows.len() == 2,
            part@.insert_row() == prow0,
            prow0.len() == 6,
            strictly_increasing(prow0),
            part@.dir == SkipDirection::Reverse,
            k < 5 ==> part@.insert == InsertPoint::At(prow0[4 - k]),
            k == 5 ==> part@.insert is Exhausted,
            part@.rows.last().len() == 2 + 2 * k,
            strictly_increasing(part@.rows.last()),
            part@.prev == part@.rows.last().last(),
            round_start < pattern@.nodes.len(),
            part@.chsp is None,
            part@.ignore == false,
        decreases 5 - k,
    {
        let ghost pm = part@;
        let ghost g = pattern@;
        proof {
            lemma_inc_runs(pm, g, 4 - k as int);
        }
        part.inc(&mut pattern)?;
        k = k + 1;
    }
    part.slip_stitch(&mut pattern, round_start);

    let mut round: u32 = 1;
    while round < 21
        invariant
            1 <= round <= 21,
            part@.wf_in(pattern@),
            pattern@.wf(),
            pattern@.nodes.len() == 18 + 3 * (round - 1) * (round + 4),
            pattern@.edges.len() == 30 + 6 * (round - 1) * (round + 4),
            part@.rows.len() == 1 + round,
            part@.rows.last().len() == 6 * (round + 1),
            strictly_increasing(part@.rows.last()),
            part@.prev == part@.rows.last().last(),
            part@.dir == SkipDirection::Reverse,
            part@.chsp is None,
            part@.ignore == false,
        decreases 21 - round,
    {
        proof {
            assert(3 * (round - 1) * (round + 4) <= 1500) by (nonlinear_arith)
                requires
                    round <= 21,
            ;
        }
        let ghost pm0 = part@;
        let ghost g0 = pattern@;
        let ghost prow = pm0.rows.last();
        let h_turn = pattern.graph().node_count();
        proof {
            let (pm1, rnr) = pm0.spec_new_row();
            assert(rnr is Ok);
            let pm2 = PartModel {
                insert: InsertPoint::At(pm0.prev),
                dir: SkipDirection::Reverse,
                rows: push_last(pm1.rows, h_turn),
                prev: h_turn,
                ..pm1
            };
            assert(pm2.insert_row() == prow);
            assert(pm0.prev == prow[prow.len() - 1]);
            lemma_skip_at(pm2, prow.len() - 1);
            assert(spec_turn(pm0, g0).2 is Ok);
        }
        part.turn(&mut pattern)?;
        let s = part.prev();
        let mut t: u32 = 0;
        while t < 5
            invariant
                t <= 5,
                1 <= round < 21,
                part@.wf_in(pattern@),
                pattern@.wf(),
                pattern@.nodes.len() == 18 + 3 * (round - 1) * (round + 4) + 1 + t * (round
                    + 2),
                pattern@.edges.len() == 30 + 6 * (round - 1) * (round + 4) + 1 + t * (2 * round
                    + 4),
                part@.rows.len() == 2 + round,
                part@.insert_row() == prow,
                prow.len() == 6 * (round + 1),
                strictly_increasing(prow),
                part@.dir == SkipDirection::Reverse,
                part@.insert == InsertPoint::At(prow[6 * (round + 1) - 2 - t * (round + 1)]),
                part@.rows.last().len() == 1 + t * (round + 2),
                strictly_increasing(part@.rows.last()),
                part@.prev == part@.rows.last().last(),
                s < pattern@.nodes.len(),
                part@.chsp is None,
                part@.ignore == false,
            decreases 5 - t,
        {
            proof {
                assert(3 * (round - 1) * (round + 4) <= 1500) by (nonlinear_arith)
                    requires
                        round < 21,
                ;
                assert(t * (round + 2) <= 115) by (nonlinear_arith)
                    requires
                        t < 5,
                        round < 21,
                ;
                assert(t * (round + 1) + round + 2 < 6 * (round + 1)) by (nonlinear_arith)
                    requires
                        t < 5,
                        1 <= round,
                ;
            }
            let ghost pm = part@;
            let ghost g = pattern@;
            proof {
                lemma_inc_runs(pm, g, 6 * (round + 1) - 2 - t * (round + 1));
            }
            part.inc(&mut pattern)?;
            let mut u: u32 = 0;
            while u < round
                invariant
                    u <= round,
                    t < 5,
                    1 <= round < 21,
                    part@.wf_in(pattern@),
                    pattern@.wf(),
                    pattern@.nodes.len() == 18 + 3 * (round - 1) * (round + 4) + 1 + t * (round
                        + 2) + 2 + u,
                    pattern@.edges.len() == 30 + 6 * (round - 1) * (round + 4) + 1 + t * (2
                        * round + 4) + 4 + 2 * u,
                    part@.rows.len() == 2 + round,
                    part@.insert_row() == prow,
                    prow.len() == 6 * (round + 1),
                    strictly_increasing(prow),
                    part@.dir == SkipDirection::Reverse,
                    part@.insert == InsertPoint::At(
                        prow[6 * (round + 1) - 3 - t * (round + 1) - u],
                    ),
                    part@.rows.last().len() == 3 + t * (round + 2) + u,
                    strictly_increasing(part@.rows.last()),
                    part@.prev == part@.rows.last().last(),
                    s < pattern@.nodes.len(),
                    part@.chsp is None,
                    part@.ignore == false,
                decreases round - u,
            {
                proof {
                    assert(t * (round + 1) + u + 3 <= 6 * (round + 1)) by (nonlinear_arith)
                        requires
                            t < 5,
                            u < round,
                            1 <= round,
                    ;
                }
                let ghost pm = part@;
                let ghost g = pattern@;
                let h = pattern.graph().node_count();
                proof {
                    let pm1 = PartModel { prev: h, rows: push_last(pm.rows, h), ..pm };
                    assert(pm1.insert_row() == prow);
                    lemma_skip_at(pm1, 6 * (round + 1) - 3 - t * (round + 1) - u);
                    assert(spec_dc(pm, g).2 is Ok);
                }
                part.dc(&mut pattern)?;
                proof {
                    lemma_push_last_increasing(pm, g, h);
                }
                u = u + 1;
            }
            proof {
                assert((t + 1) * (round + 2) == t * (round + 2) + (round + 2))
                    by (nonlinear_arith);
                assert((t + 1) * (round + 1) == t * (round + 1) + (round + 1))
                    by (nonlinear_arith);
                assert((t + 1) * (2 * round + 4) == t * (2 * round + 4) + (2 * round + 4))
                    by (nonlinear_arith);
            }
            t = t + 1;
        }
        proof {
            assert(3 * (round - 1) * (round + 4) <= 1500) by (nonlinear_arith)
                requires
                    round < 21,
            ;
            assert(5 * (round + 1) + 1 < 6 * (round + 1)) by (nonlinear_arith)
                requires
                    1 <= round,
            ;
        }
        let ghost pm_i = part@;
        let ghost g_i = pattern@;
        proof {
            assert(pm_i.insert == InsertPoint::At(prow[round - 1]));
            lemma_inc_runs(pm_i, g_i, round - 1 as int);
        }
        part.inc(&mut pattern)?;
        let mut u2: u32 = 1;
        while u2 < round
            invariant
                1 <= u2 <= round,
                1 <= round < 21,
                part@.wf_in(pattern@),
                pattern@.wf(),
                pattern@.nodes.len() == 18 + 3 * (round - 1) * (round + 4) + 1 + 5 * (round + 2)
                    + 2 + (u2 - 1),
                pattern@.edges.len() == 30 + 6 * (round - 1) * (round + 4) + 1 + 5 * (2 * round
                    + 4) + 4 + 2 * (u2 - 1),
                part@.rows.len() == 2 + round,
                part@.insert_row() == prow,
                prow.len() == 6 * (round + 1),
                strictly_increasing(prow),
                part@.dir == SkipDirection::Reverse,
                u2 < round ==> part@.insert == InsertPoint::At(prow[round - 1 - u2]),
                u2 == round ==> part@.insert is Exhausted,
                part@.rows.last().len() == 3 + 5 * (round + 2) + (u2 - 1),
                strictly_increasing(part@.rows.last()),
                part@.prev == part@.rows.last().last(),
                s < pattern@.nodes.len(),
                part@.chsp is None,
                part@.ignore == false,
            decreases round - u2,
        {
            proof {
                assert(3 * (round - 1) * (round + 4) <= 1500) by (nonlinear_arith)
                    requires
                        round < 21,
                ;
            }
            let ghost pm = part@;
            let ghost g = pattern@;
            let h = pattern.graph().node_count();
            proof {
                let pm1 = PartModel { prev: h, rows: push_last(pm.rows, h), ..pm };
                assert(pm1.insert_row() == prow);
                lemma_skip_at(pm1, round - 1 - u2 as int);
                assert(spec_dc(pm, g).2 is Ok);
            }
            part.dc(&mut pattern)?;
            proof {
                lemma_push_last_increasing(pm, g, h);
            }
            u2 = u2 + 1;
        }
        part.slip_stitch(&mut pattern, s);
        proof {
            assert(3 * round * (round + 5) == 3 * (round - 1) * (round + 4) + 6 * round + 12)
                by (nonlinear_arith);
            assert(6 * round * (round + 5) == 6 * (round - 1) * (round + 4) + 12 * round + 24)
                by (nonlinear_arith);
            assert(6 * (round + 1 + 1) == 3 + 5 * (round + 2) + (round - 1))
                by (nonlinear_arith);
        }
        round = round + 1;
    }
    proof {
        assert(3 * (21 - 1) * (21 + 4) == 1500) by (nonlinear_arith);
        assert(6 * (21 - 1) * (21 + 4) == 3000) by (nonlinear_arith);
    }

    Ok(pattern)
}

} // verus!
