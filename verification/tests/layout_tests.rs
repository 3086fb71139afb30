use hooklib::embed::distinct_neighbours;
use hooklib::pattern::{Pattern, test_pattern_flat};
use hooklib::triangulate::{EdgeLength, TriEdge};

#[test]
fn triangulation_reclassifies_and_adds_diagonals() {
    // start chain (0), a second chain (1), then a row of two double crochets
    // (2, 3) worked into the start, then one chain (4) after a dc
    let mut pattern = Pattern::new();
    let mut part = pattern.add_part();
    part.chain(&mut pattern).unwrap();
    part.new_row().unwrap();
    part.set_insert(0);
    part.dc_noskip(&mut pattern).unwrap();
    part.dc_noskip(&mut pattern).unwrap();
    part.chain(&mut pattern).unwrap();

    let tri = pattern.triangulated_graph();
    assert_eq!(tri.node_count, 5);
    // base edges, reclassified, in insertion order
    let expect_base = [
        TriEdge { from: 1, to: 0, len: EdgeLength::Unit },   // chain after chain
        TriEdge { from: 2, to: 1, len: EdgeLength::Unit },   // dc after chain
        TriEdge { from: 2, to: 0, len: EdgeLength::Gauge },  // insert
        TriEdge { from: 3, to: 2, len: EdgeLength::Unit },   // dc after dc
        TriEdge { from: 3, to: 0, len: EdgeLength::Gauge },  // insert
        TriEdge { from: 4, to: 3, len: EdgeLength::Gauge },  // chain after dc
    ];
    assert_eq!(&tri.edges[..expect_base.len()], &expect_base);
    let expect_diag = [
        // node 2's insertion: node 3 was worked after it and inserts into 0
        TriEdge { from: 3, to: 0, len: EdgeLength::Diagonal },
        TriEdge { from: 0, to: 2, len: EdgeLength::Diagonal },
        // node 3's insertion: chain 4 was worked after it, inserts nowhere
        TriEdge { from: 4, to: 0, len: EdgeLength::Diagonal },
    ];
    assert_eq!(&tri.edges[expect_base.len()..], &expect_diag);
}

#[test]
fn triangulation_skips_turn_targets() {
    // insertions into a turn stitch produce no diagonals, so no diagonal
    // edge ever points at a turn
    let pattern = test_pattern_flat(4).unwrap();
    let tri = pattern.triangulated_graph();
    let g = pattern.graph();
    let mut diagonals = 0;
    for e in tri.edges.iter() {
        if e.len == EdgeLength::Diagonal {
            assert!(!g.node(e.to).is_turn());
            diagonals += 1;
        }
    }
    assert!(diagonals > 0);
}

#[test]
fn test_runtime() {
    // a flat pattern just under 2500 nodes must triangulate well within the
    // time budget of the layout pipeline
    let pattern = test_pattern_flat(49).unwrap();
    assert!(pattern.graph().node_count() <= 2500);

    let start_time = std::time::Instant::now();
    let tri = pattern.triangulated_graph();
    let elapsed = start_time.elapsed().as_secs_f64();

    assert!(tri.edges.len() > pattern.graph().edge_count());
    assert!(elapsed <= 30.0);
}

#[test]
fn distinct_neighbours_picks_first_three() {
    let edges = vec![(0usize, 1usize), (1, 2), (0, 2), (3, 0), (0, 4)];
    assert_eq!(distinct_neighbours(&edges, 0), Some((1, 2, 3)));
}

#[test]
fn distinct_neighbours_deduplicates() {
    let edges = vec![(0usize, 1usize), (1, 0), (0, 1), (2, 0), (0, 3)];
    assert_eq!(distinct_neighbours(&edges, 0), Some((1, 2, 3)));
}

#[test]
fn distinct_neighbours_needs_three() {
    let edges = vec![(0usize, 1usize), (1, 0), (2, 0)];
    assert_eq!(distinct_neighbours(&edges, 0), None);
    let empty: Vec<(usize, usize)> = Vec::new();
    assert_eq!(distinct_neighbours(&empty, 0), None);
}

#[test]
fn isomorphic_accepts_rebuilt_pattern() {
    let a = test_pattern_flat(6).unwrap();
    let b = test_pattern_flat(6).unwrap();
    assert!(a.isomorphic(&b));
}

#[test]
fn isomorphic_accepts_relabelled_handles() {
    // the same two chains of stitches, created in different orders, get
    // different handles but the same fabric
    let mut a = Pattern::new();
    let mut a1 = a.add_part();
    for _ in 0..3 {
        a1.chain(&mut a).unwrap();
    }
    let mut a2 = a.add_part();
    for _ in 0..3 {
        a2.chain(&mut a).unwrap();
    }

    let mut b = Pattern::new();
    let mut b1 = b.add_part();
    let mut b2 = b.add_part();
    for _ in 0..3 {
        b1.chain(&mut b).unwrap();
        b2.chain(&mut b).unwrap();
    }

    assert!(a.isomorphic(&b));
}

#[test]
fn isomorphic_rejects_different_sizes() {
    let a = test_pattern_flat(3).unwrap();
    let b = test_pattern_flat(4).unwrap();
    assert!(!a.isomorphic(&b));
}

#[test]
fn grid_end_to_end() {
    // a 15-chain foundation and 15 rows of 15 double crochets
    let direct = test_pattern_flat(15).unwrap();
    assert_eq!(direct.graph().node_count(), 1 + 2 * 15 + 15 * 15);
    let mut turns = 0;
    for i in 0..direct.graph().node_count() {
        if direct.graph().node(i).is_turn() {
            turns += 1;
        }
    }
    assert_eq!(turns, 15);

    // an independent builder path for the same fabric: every turn spelled
    // out as turn-without-skip followed by an explicit skip
    let mut rebuilt = Pattern::new();
    let mut part = rebuilt.add_part();
    for _ in 0..15 {
        part.chain(&mut rebuilt).unwrap();
    }
    for _ in 0..15 {
        part.turn_noskip(&mut rebuilt).unwrap();
        part.skip().unwrap();
        for _ in 0..15 {
            part.dc_noskip(&mut rebuilt).unwrap();
            part.skip().unwrap();
        }
    }
    assert_eq!(rebuilt.graph().node_count(), direct.graph().node_count());
    assert!(direct.isomorphic(&rebuilt));
}
