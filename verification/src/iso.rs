//! Pattern equality as graph isomorphism. Patterns rebuilt from scratch get
//! fresh handles, so equality of two patterns is decided up to a relabelling
//! of nodes that preserves node values and the edge multiset.

use vstd::prelude::*;
use crate::pattern::{Edge, EdgeType, GraphModel, Pattern};

verus! {

/// The image of an edge under a node relabelling.
pub open spec fn map_edge(m: Seq<usize>, e: Edge) -> Edge {
    Edge { from: m[e.from as int], to: m[e.to as int], ty: e.ty }
}

/// The image of a whole edge list under a node relabelling.
pub open spec fn map_edges(m: Seq<usize>, edges: Seq<Edge>) -> Seq<Edge> {
    Seq::new(edges.len(), |i: int| map_edge(m, edges[i]))
}

/// `m` is a graph isomorphism from `g1` onto `g2`: a bijective relabelling
/// of node handles that preserves every node value and carries the edge
/// multiset of `g1` exactly onto that of `g2`.
pub open spec fn is_iso_map(g1: GraphModel, g2: GraphModel, m: Seq<usize>) -> bool {
    &&& m.len() == g1.nodes.len()
    &&& g2.nodes.len() == g1.nodes.len()
    &&& forall|i: int| 0 <= i < m.len() ==> (#[trigger] m[i]) < g2.nodes.len()
    &&& forall|i: int, j: int| 0 <= i < j < m.len() ==> m[i] != m[j]
    &&& forall|i: int| 0 <= i < m.len() ==> g2.nodes[#[trigger] m[i] as int] == g1.nodes[i]
    &&& map_edges(m, g1.edges).to_multiset() == g2.edges.to_multiset()
}

/// Two graphs are isomorphic when some isomorphism maps one onto the other.
pub open spec fn spec_isomorphic(g1: GraphModel, g2: GraphModel) -> bool {
    exists|m: Seq<usize>| is_iso_map(g1, g2, m)
}

/// The identity relabelling is an isomorphism from a graph onto itself.
pub proof fn lemma_identity_iso_map(g: GraphModel)
    requires
        g.wf(),
        g.nodes.len() <= usize::MAX,
    ensures
        is_iso_map(g, g, Seq::new(g.nodes.len(), |i: int| i as usize)),
{
    let m = Seq::new(g.nodes.len(), |i: int| i as usize);
    assert(map_edges(m, g.edges) =~= g.edges);
}

/// Law: any two patterns built by the flat grid recipe for the same size
/// compare equal — the recipe's contract pins the whole graph, so both runs
/// produce the same value, and equal graphs are isomorphic whatever handles
/// either run handed out.
pub proof fn lemma_grid_builds_isomorphic(g1: GraphModel, g2: GraphModel, n: nat)
    requires
        g1 == crate::pattern::spec_flat_grid(n).1,
        g2 == crate::pattern::spec_flat_grid(n).1,
        g1.wf(),
        g1.nodes.len() <= usize::MAX,
    ensures
        spec_isomorphic(g1, g2),
{
    lemma_equal_graphs_isomorphic(g1);
}

/// Equal graphs are isomorphic: the identity relabelling is an isomorphism.
/// Each builder operation's contract pins its outcome exactly, so two runs
/// of one recipe yield equal graphs — and hence always isomorphic patterns,
/// whatever handles they were built with.
pub proof fn lemma_equal_graphs_isomorphic(g: GraphModel)
    requires
        g.wf(),
        g.nodes.len() <= usize::MAX,
    ensures
        spec_isomorphic(g, g),
{
    lemma_identity_iso_map(g);
}

/// The number of occurrences of `x` in `s`.
pub open spec fn occ(s: Seq<Edge>, x: Edge) -> int
    decreases s.len(),
{
    if s.len() == 0 {
        0
    } else {
        occ(s.drop_last(), x) + if s.last() == x {
            1int
        } else {
            0
        }
    }
}

/// Occurrence counts agree with multiset counts.
pub proof fn lemma_occ_is_count(s: Seq<Edge>, x: Edge)
    ensures
        occ(s, x) == s.to_multiset().count(x),
    decreases s.len(),
{
    broadcast use vstd::seq_lib::group_to_multiset_ensures;

    if s.len() == 0 {
        assert(s.to_multiset().count(x) == 0);
    } else {
        lemma_occ_is_count(s.drop_last(), x);
        assert(s.drop_last().push(s.last()) =~= s);
        assert(s.drop_last().push(s.last()).to_multiset() =~= s.drop_last().to_multiset().insert(
            s.last(),
        ));
    }
}

/// Counts the occurrences of an edge in an edge list.
fn count_edge(v: &Vec<Edge>, x: Edge) -> (c: usize)
    ensures
        c == occ(v@, x),
{
    let mut c: usize = 0;
    let mut i: usize = 0;
    while i < v.len()
        invariant
            i <= v@.len(),
            c == occ(v@.take(i as int), x),
            c <= i,
        decreases v@.len() - i,
    {
        proof {
            assert(v@.take(i as int + 1).drop_last() =~= v@.take(i as int));
            assert(v@.take(i as int + 1).last() == v@[i as int]);
        }
        if v[i] == x {
            c = c + 1;
        }
        i = i + 1;
    }
    proof {
        assert(v@.take(v@.len() as int) =~= v@);
    }
    c
}

/// Decides whether two edge lists hold the same edges with the same
/// multiplicities, in any order.
fn edges_multiset_equal(a: &Vec<Edge>, b: &Vec<Edge>) -> (r: bool)
    ensures
        r == (a@.to_multiset() == b@.to_multiset()),
{
    if a.len() != b.len() {
        proof {
            broadcast use vstd::seq_lib::group_to_multiset_ensures;

            assert(a@.to_multiset().len() == a@.len());
            assert(b@.to_multiset().len() == b@.len());
        }
        return false;
    }
    let mut i: usize = 0;
    while i < a.len()
        invariant
            i <= a@.len(),
            forall|k: int| 0 <= k < i ==> occ(a@, #[trigger] a@[k]) == occ(b@, a@[k]),
        decreases a@.len() - i,
    {
        let x = a[i];
        if count_edge(a, x) != count_edge(b, x) {
            proof {
                lemma_occ_is_count(a@, x);
                lemma_occ_is_count(b@, x);
            }
            return false;
        }
        i = i + 1;
    }
    let mut j: usize = 0;
    while j < b.len()
        invariant
            j <= b@.len(),
            forall|k: int| 0 <= k < a@.len() ==> occ(a@, #[trigger] a@[k]) == occ(b@, a@[k]),
            forall|k: int| 0 <= k < j ==> occ(a@, #[trigger] b@[k]) == occ(b@, b@[k]),
        decreases b@.len() - j,
    {
        let x = b[j];
        if count_edge(a, x) != count_edge(b, x) {
            proof {
                lemma_occ_is_count(a@, x);
                lemma_occ_is_count(b@, x);
            }
            return false;
        }
        j = j + 1;
    }
    proof {
        broadcast use vstd::seq_lib::group_to_multiset_ensures;

        assert forall|x: Edge|
            a@.to_multiset().count(x) == b@.to_multiset().count(x) by {
            lemma_occ_is_count(a@, x);
            lemma_occ_is_count(b@, x);
            if a@.contains(x) {
                let k = choose|k: int| 0 <= k < a@.len() && a@[k] == x;
                assert(occ(a@, a@[k]) == occ(b@, a@[k]));
            } else if b@.contains(x) {
                let k = choose|k: int| 0 <= k < b@.len() && b@[k] == x;
                assert(occ(a@, b@[k]) == occ(b@, b@[k]));
            } else {
                assert(a@.to_multiset().count(x) == 0);
                assert(b@.to_multiset().count(x) == 0);
            }
        }
        assert(a@.to_multiset() =~= b@.to_multiset());
    }
    true
}

/// Checks whether a candidate relabelling is an isomorphism: the answer is
/// exact, whatever the search below hands over.
fn check_candidate(p1: &Pattern, p2: &Pattern, m: &Vec<usize>) -> (r: bool)
    requires
        p1@.wf(),
        p2@.wf(),
    ensures
        r == is_iso_map(p1@, p2@, m@),
{
    let g1 = p1.graph();
    let g2 = p2.graph();
    let n1 = g1.node_count();
    let n2 = g2.node_count();
    if m.len() != n1 || n2 != n1 {
        return false;
    }
    let mut used: Vec<bool> = Vec::new();
    let mut v: usize = 0;
    while v < n2
        invariant
            v <= n2,
            used@.len() == v,
            forall|k: int| 0 <= k < v ==> !(#[trigger] used@[k]),
        decreases n2 - v,
    {
        used.push(false);
        v = v + 1;
    }
    let mut i: usize = 0;
    while i < n1
        invariant
            i <= n1,
            m@.len() == n1,
            used@.len() == n2,
            n1 == p1@.nodes.len(),
            n2 == p2@.nodes.len(),
            n1 == n2,
            g1@ == p1@,
            g2@ == p2@,
            forall|k: int| 0 <= k < i ==> (#[trigger] m@[k]) < n2,
            forall|k: int| 0 <= k < i ==> p2@.nodes[#[trigger] m@[k] as int] == p1@.nodes[k],
            forall|k1: int, k2: int| 0 <= k1 < k2 < i ==> m@[k1] != m@[k2],
            forall|w: int|
                0 <= w < n2 ==> ((#[trigger] used@[w]) <==> exists|k: int|
                    0 <= k < i && m@[k] == w),
        decreases n1 - i,
    {
        let mi = m[i];
        if mi >= n2 {
            proof {
                assert(m@[i as int] == mi);
            }
            return false;
        }
        if used[mi] {
            proof {
                let k = choose|k: int| 0 <= k < i && m@[k] == mi as int;
                assert(m@[k] == m@[i as int]);
            }
            return false;
        }
        if g1.node(i) != g2.node(mi) {
            proof {
                assert(p2@.nodes[m@[i as int] as int] != p1@.nodes[i as int]);
            }
            return false;
        }
        used[mi] = true;
        proof {
            assert forall|w: int|
                0 <= w < n2 implies ((#[trigger] used@[w]) <==> exists|k: int|
                0 <= k < i + 1 && m@[k] == w) by {
                if w == mi as int {
                    assert(m@[i as int] == w);
                } else {
                    if used@[w] {
                        let k = choose|k: int| 0 <= k < i && m@[k] == w;
                        assert(0 <= k < i + 1 && m@[k] == w);
                    }
                }
            }
        }
        i = i + 1;
    }
    let ghost mapped = map_edges(m@, p1@.edges);
    let mut t1: Vec<Edge> = Vec::new();
    let mut e: usize = 0;
    let n_edges = g1.edge_count();
    while e < n_edges
        invariant
            e <= n_edges,
            n_edges == p1@.edges.len(),
            p1@.wf(),
            g1@ == p1@,
            m@.len() == p1@.nodes.len(),
            mapped == map_edges(m@, p1@.edges),
            t1@ == mapped.take(e as int),
        decreases n_edges - e,
    {
        let ed = g1.edge(e);
        t1.push(Edge { from: m[ed.from], to: m[ed.to], ty: ed.ty });
        proof {
            assert(t1@ =~= mapped.take(e as int + 1));
        }
        e = e + 1;
    }
    proof {
        assert(mapped.take(n_edges as int) =~= mapped);
    }
    edges_multiset_equal(&t1, g2.edges())
}


/// One matching constraint for the node being placed: it must share an edge
/// of this type, in this direction, with an already-placed node.
struct Constraint {
    outgoing: bool,
    other: usize,
    ty: EdgeType,
}

/// Searches for an isomorphism by placing nodes in handle order and pruning
/// candidates against the edges into already-placed nodes. The search is
/// bounded by fuel; it reports only mappings, never their absence.
fn search_iso(p1: &Pattern, p2: &Pattern) -> (r: Option<Vec<usize>>)
    requires
        p1@.wf(),
        p2@.wf(),
{
    let g1 = p1.graph();
    let g2 = p2.graph();
    let n = g1.node_count();
    if g2.node_count() != n || g1.edge_count() != g2.edge_count() {
        return None;
    }
    if n == 0 {
        return Some(Vec::new());
    }

    let mut used: Vec<bool> = Vec::new();
    let mut v: usize = 0;
    while v < n
        invariant
            v <= n,
            used@.len() == v,
        decreases n - v,
    {
        used.push(false);
        v = v + 1;
    }

    let mut m: Vec<usize> = Vec::new();
    let mut cand: Vec<usize> = Vec::new();
    cand.push(0);
    let mut fuel: u64 = 50000000;
    while fuel > 0
        invariant
            used@.len() == n,
            n == p1@.nodes.len(),
            n == p2@.nodes.len(),
            g1@ == p1@,
            g2@ == p2@,
            m@.len() < cand@.len(),
            cand@.len() == m@.len() + 1,
            m@.len() <= n,
            forall|k: int| 0 <= k < m@.len() ==> (#[trigger] m@[k]) < n,
        decreases fuel,
    {
        fuel = fuel - 1;
        let d = m.len();
        if d == n {
            return Some(m);
        }
        let c = cand[d];
        if c >= n {
            if d == 0 {
                return None;
            }
            let _ = cand.pop();
            let prev = match m.pop() {
                Some(prev) => prev,
                None => {
                    return None;
                },
            };
            used[prev] = false;
            let resume = cand[d - 1];
            if resume >= n {
                return None;
            }
            cand[d - 1] = resume + 1;
            continue;
        }
        let mut ok = !used[c] && g1.node(d) == g2.node(c);
        if ok {
            // collect the edges joining node d to already-placed nodes
            let mut e: usize = 0;
            let n_edges = g1.edge_count();
            while e < n_edges && ok
                invariant
                    e <= n_edges,
                    n_edges == p1@.edges.len(),
                    g1@ == p1@,
                    g2@ == p2@,
                    c < n,
                    d == m@.len(),
                    m@.len() < n,
                    forall|k: int| 0 <= k < m@.len() ==> (#[trigger] m@[k]) < n,
                decreases n_edges - e, (if ok { 1int } else { 0 }),
                {
                let ed = g1.edge(e);
                let constraint: Option<Constraint> = if ed.from == d && ed.to < d {
                    Some(Constraint { outgoing: true, other: ed.to, ty: ed.ty })
                } else if ed.to == d && ed.from < d {
                    Some(Constraint { outgoing: false, other: ed.from, ty: ed.ty })
                } else {
                    None
                };
                if let Some(con) = constraint {
                    let want = m[con.other];
                    let mut found = false;
                    let mut f: usize = 0;
                    let n_edges2 = g2.edge_count();
                    while f < n_edges2 && !found
                        invariant
                            f <= n_edges2,
                            n_edges2 == p2@.edges.len(),
                            g2@ == p2@,
                        decreases n_edges2 - f, (if found { 0int } else { 1 }),
                    {
                        let ed2 = g2.edge(f);
                        if con.outgoing {
                            if ed2.from == c && ed2.to == want && ed2.ty == con.ty {
                                found = true;
                            }
                        } else {
                            if ed2.from == want && ed2.to == c && ed2.ty == con.ty {
                                found = true;
                            }
                        }
                        f = f + 1;
                    }
                    if !found {
                        ok = false;
                    }
                }
                e = e + 1;
            }
        }
        if ok {
            m.push(c);
            used[c] = true;
            cand.push(0);
        } else {
            cand[d] = c + 1;
        }
    }
    None
}

impl Pattern {
    /// Decides whether this pattern's graph is isomorphic to another's.
    /// A `true` answer is certain. Two equal graphs — in particular two
    /// runs of the same builder recipe, whose outcome the operations'
    /// contracts pin exactly — always compare equal: the identity
    /// relabelling is tried first and checked exactly. Beyond that the
    /// bounded search may miss an isomorphism between very large or very
    /// symmetric graphs, so a `false` answer claims nothing more.
    pub fn isomorphic(&self, other: &Pattern) -> (r: bool)
        requires
            self@.wf(),
            other@.wf(),
        ensures
            r ==> spec_isomorphic(self@, other@),
            self@ == other@ ==> r,
    {
        let n = self.graph().node_count();
        let mut ident: Vec<usize> = Vec::new();
        let mut i: usize = 0;
        while i < n
            invariant
                i <= n,
                ident@.len() == i,
                forall|k: int| 0 <= k < i ==> #[trigger] ident@[k] == k,
            decreases n - i,
        {
            ident.push(i);
            i = i + 1;
        }
        proof {
            if self@ == other@ {
                lemma_identity_iso_map(self@);
                assert(ident@ =~= Seq::new(self@.nodes.len(), |k: int| k as usize));
            }
        }
        if check_candidate(self, other, &ident) {
            proof {
                assert(spec_isomorphic(self@, other@)) by {
                    assert(is_iso_map(self@, other@, ident@));
                }
            }
            return true;
        }
        match search_iso(self, other) {
            None => false,
            Some(m) => check_candidate(self, other, &m),
        }
    }
}

} // verus!
