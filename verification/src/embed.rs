//! Discrete decisions of the layout pipeline. The stress-descent itself
//! works on floating-point coordinates and belongs to the rendering layer;
//! the combinatorial choice it rests on — which nodes serve as the three
//! distinct neighbours of the central node during canonicalization — is
//! made and verified here.

use vstd::prelude::*;

verus! {

/// The neighbours of `central` read off an undirected edge list, in edge
/// order: for each edge incident to `central`, its other endpoint.
pub open spec fn neighbour_seq(edges: Seq<(usize, usize)>, central: usize) -> Seq<usize>
    decreases edges.len(),
{
    if edges.len() == 0 {
        Seq::empty()
    } else {
        let rest = neighbour_seq(edges.drop_last(), central);
        let e = edges.last();
        if e.0 == central {
            rest.push(e.1)
        } else if e.1 == central {
            rest.push(e.0)
        } else {
            rest
        }
    }
}

/// The sequence with every later repetition of an element removed: each
/// element keeps its first occurrence only.
pub open spec fn dedup_first(s: Seq<usize>) -> Seq<usize>
    decreases s.len(),
{
    if s.len() == 0 {
        Seq::empty()
    } else {
        let rest = dedup_first(s.drop_last());
        if rest.contains(s.last()) {
            rest
        } else {
            rest.push(s.last())
        }
    }
}

/// The deduplicated neighbour list never repeats an element.
pub proof fn lemma_dedup_first_no_duplicates(s: Seq<usize>)
    ensures
        forall|i: int, j: int|
            0 <= i < j < dedup_first(s).len() ==> dedup_first(s)[i] != dedup_first(s)[j],
        forall|i: int| 0 <= i < dedup_first(s).len() ==> s.contains(#[trigger] dedup_first(s)[i]),
    decreases s.len(),
{
    if s.len() > 0 {
        lemma_dedup_first_no_duplicates(s.drop_last());
        let rest = dedup_first(s.drop_last());
        assert forall|i: int|
            0 <= i < dedup_first(s).len() implies s.contains(#[trigger] dedup_first(s)[i]) by {
            if i < rest.len() {
                let e = rest[i];
                let k = choose|k: int| 0 <= k < s.drop_last().len() && s.drop_last()[k] == e;
                assert(s[k] == e);
            } else {
                assert(s[s.len() - 1] == s.last());
            }
        }
    }
}

/// Deduplicating a list that already has no repetitions changes nothing.
pub proof fn lemma_dedup_first_of_distinct(s: Seq<usize>)
    requires
        forall|i: int, j: int| 0 <= i < j < s.len() ==> s[i] != s[j],
    ensures
        dedup_first(s) == s,
    decreases s.len(),
{
    if s.len() > 0 {
        lemma_dedup_first_of_distinct(s.drop_last());
        assert(!s.drop_last().contains(s.last())) by {
            if s.drop_last().contains(s.last()) {
                let k = choose|k: int|
                    0 <= k < s.drop_last().len() && s.drop_last()[k] == s.last();
                assert(s[k] == s[s.len() - 1]);
            }
        }
        assert(s.drop_last().push(s.last()) =~= s);
    }
}

/// Law: picking the distinct neighbours is idempotent — running the
/// deduplication again over its own result changes nothing. The
/// canonicalization step can therefore be re-applied without moving its
/// anchor nodes.
pub proof fn lemma_dedup_first_idempotent(s: Seq<usize>)
    ensures
        dedup_first(dedup_first(s)) == dedup_first(s),
{
    lemma_dedup_first_no_duplicates(s);
    lemma_dedup_first_of_distinct(dedup_first(s));
}

/// Whether a value occurs in a handle list.
fn contains_handle(v: &Vec<usize>, x: usize) -> (r: bool)
    ensures
        r == v@.contains(x),
{
    let mut i: usize = 0;
    while i < v.len()
        invariant
            i <= v@.len(),
            forall|k: int| 0 <= k < i ==> v@[k] != x,
        decreases v@.len() - i,
    {
        if v[i] == x {
            return true;
        }
        i = i + 1;
    }
    false
}

/// Picks the first three distinct neighbours of `central` from an edge
/// list, in edge order, or reports that it has fewer than three. The
/// canonicalization step aligns the plane they span with the up axis; when
/// this returns `None` the layout is translated but not rotated.
pub fn distinct_neighbours(edges: &Vec<(usize, usize)>, central: usize) -> (r: Option<
    (usize, usize, usize),
>)
    ensures
        ({
            let d = dedup_first(neighbour_seq(edges@, central));
            if d.len() >= 3 {
                r == Some((d[0], d[1], d[2]))
            } else {
                r is None
            }
        }),
{
    let mut neigh: Vec<usize> = Vec::new();
    let mut i: usize = 0;
    while i < edges.len()
        invariant
            i <= edges@.len(),
            neigh@ == neighbour_seq(edges@.take(i as int), central),
        decreases edges@.len() - i,
    {
        let e = edges[i];
        proof {
            assert(edges@.take(i as int + 1).drop_last() =~= edges@.take(i as int));
            assert(edges@.take(i as int + 1).last() == e);
        }
        if e.0 == central {
            neigh.push(e.1);
        } else if e.1 == central {
            neigh.push(e.0);
        }
        i = i + 1;
    }
    proof {
        assert(edges@.take(edges@.len() as int) =~= edges@);
    }

    let mut distinct: Vec<usize> = Vec::new();
    let mut j: usize = 0;
    while j < neigh.len()
        invariant
            j <= neigh@.len(),
            distinct@ == dedup_first(neigh@.take(j as int)),
        decreases neigh@.len() - j,
    {
        let x = neigh[j];
        proof {
            assert(neigh@.take(j as int + 1).drop_last() =~= neigh@.take(j as int));
            assert(neigh@.take(j as int + 1).last() == x);
        }
        if !contains_handle(&distinct, x) {
            distinct.push(x);
        }
        j = j + 1;
    }
    proof {
        assert(neigh@.take(neigh@.len() as int) =~= neigh@);
    }

    if distinct.len() >= 3 {
        Some((distinct[0], distinct[1], distinct[2]))
    } else {
        None
    }
}

} // verus!
