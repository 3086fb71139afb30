use hooklib::pattern::{
    EdgeType, Node, Pattern, PatternError, Rgb, StitchKind, test_pattern_flat,
    test_pattern_joined_rounds, test_pattern_spiral_rounds, test_pattern_sphere,
};

fn turn_count(p: &Pattern) -> usize {
    let g = p.graph();
    let mut turns = 0;
    let mut i = 0;
    while i < g.node_count() {
        if g.node(i).is_turn() {
            turns += 1;
        }
        i += 1;
    }
    turns
}

#[test]
fn test_flat() {
    let pattern = test_pattern_flat(7).unwrap();
    assert_eq!(pattern.graph().node_count(), 1 + 2 * 7 + 7 * 7);
    assert_eq!(pattern.graph().edge_count(), 2 * 7 + 2 * 7 * 7);
    assert_eq!(turn_count(&pattern), 7);
}

#[test]
fn test_spiral_rounds() {
    let pattern = test_pattern_spiral_rounds().unwrap();
    assert_eq!(pattern.graph().node_count(), 1390);
    assert_eq!(pattern.graph().edge_count(), 2778);
    assert_eq!(turn_count(&pattern), 0);
}

#[test]
fn test_joined_rounds() {
    let pattern = test_pattern_joined_rounds().unwrap();
    assert_eq!(pattern.graph().node_count(), 1518);
    assert_eq!(pattern.graph().edge_count(), 3030);
}

#[test]
fn test_sphere() {
    let pattern = test_pattern_sphere().unwrap();
    assert_eq!(pattern.graph().node_count(), 474);
    assert_eq!(pattern.graph().edge_count(), 978);
}

#[test]
fn skip_past_end_fails_with_end_of_row() {
    let mut pattern = Pattern::new();
    let mut part = pattern.add_part();
    for _ in 0..3 {
        part.chain(&mut pattern).unwrap();
    }
    // foundation row has 4 stitches; the turn's own skip uses the first slot
    part.turn(&mut pattern).unwrap();
    assert_eq!(part.skip(), Ok(()));
    assert_eq!(part.skip(), Ok(()));
    assert_eq!(part.skip(), Ok(()));
    // the row is exhausted now: skipping further must report EndOfRow
    assert_eq!(part.skip(), Err(PatternError::EndOfRow));
    assert_eq!(part.skip(), Err(PatternError::EndOfRow));
}

#[test]
fn dec_consumes_two_slots() {
    let mut pattern = Pattern::new();
    let mut part = pattern.add_part();
    part.chain(&mut pattern).unwrap();
    // previous row has 2 stitches: one dec consumes both
    part.new_row().unwrap();
    part.dec(&mut pattern).unwrap();
    assert_eq!(part.insert(), None);
    assert_eq!(part.dec(&mut pattern), Err(PatternError::EndOfRow));
}

#[test]
fn dec_on_single_slot_row_fails_with_end_of_row() {
    let mut pattern = Pattern::new();
    let mut part = pattern.add_part();
    // previous row is just the starting chain: length 1
    part.new_row().unwrap();
    assert_eq!(part.dec(&mut pattern), Err(PatternError::EndOfRow));
}

#[test]
fn sew_unequal_lengths_fails_and_leaves_graph_unchanged() {
    let mut pattern = Pattern::new();
    let mut part = pattern.add_part();
    for _ in 0..4 {
        part.chain(&mut pattern).unwrap();
    }
    let row_a = vec![0usize, 1, 2];
    let row_b = vec![3usize, 4];
    let nodes_before = pattern.graph().node_count();
    let edges_before = pattern.graph().edge_count();
    assert_eq!(
        pattern.sew(&row_a, &row_b),
        Err(PatternError::SewInvalidLengths)
    );
    assert_eq!(pattern.graph().node_count(), nodes_before);
    assert_eq!(pattern.graph().edge_count(), edges_before);
}

#[test]
fn sew_equal_lengths_adds_sew_edges() {
    let mut pattern = Pattern::new();
    let mut part = pattern.add_part();
    for _ in 0..4 {
        part.chain(&mut pattern).unwrap();
    }
    let edges_before = pattern.graph().edge_count();
    pattern.sew(&vec![0usize, 1], &vec![2usize, 3]).unwrap();
    assert_eq!(pattern.graph().edge_count(), edges_before + 2);
    let e = pattern.graph().edge(edges_before);
    assert_eq!((e.from, e.to), (0, 2));
}

#[test]
fn dc_without_insert_fails_with_no_insert() {
    let mut pattern = Pattern::new();
    let mut part = pattern.add_part();
    assert_eq!(part.dc_noskip(&mut pattern), Err(PatternError::NoInsert));
}

#[test]
fn skip_without_rows_fails_with_no_rows() {
    let mut pattern = Pattern::new();
    let mut part = pattern.add_part();
    assert_eq!(part.skip(), Err(PatternError::NoRows));
}

#[test]
fn chain_space_errors() {
    let mut pattern = Pattern::new();
    let mut part = pattern.add_part();
    assert_eq!(part.end_ch_sp(&mut pattern), Err(PatternError::NoChainSpace));
    part.start_ch_sp().unwrap();
    assert_eq!(part.start_ch_sp(), Err(PatternError::NestedChainSpace));
    part.chain(&mut pattern).unwrap();
    part.chain(&mut pattern).unwrap();
    let ch_sp = part.end_ch_sp(&mut pattern).unwrap();
    // the chain space node is connected to the opener and both chains
    assert_eq!(ch_sp, 3);
    assert_eq!(pattern.graph().node_count(), 4);
    assert_eq!(pattern.graph().edge_count(), 2 + 3);
}

#[test]
fn magic_ring_replaces_the_starting_chain() {
    let mut pattern = Pattern::new();
    let mut part = pattern.add_part();
    part.magic_ring(&mut pattern);
    assert_eq!(pattern.graph().node_count(), 1);
    assert_eq!(pattern.graph().node(part.start()), Node::MagicRing);
    assert_eq!(part.prev(), part.start());
}

#[test]
fn ignored_stitches_stay_out_of_rows() {
    let mut pattern = Pattern::new();
    let mut part = pattern.add_part();
    part.chain(&mut pattern).unwrap();
    part.set_ignore(true);
    part.chain(&mut pattern).unwrap();
    part.set_ignore(false);
    part.chain(&mut pattern).unwrap();
    // row 0 holds the start and the two unignored chains
    assert_eq!(part.current_row().unwrap().len(), 3);
    // all three chains are in the graph regardless
    assert_eq!(pattern.graph().node_count(), 4);
}

#[test]
fn change_color_tags_new_stitches() {
    let mut pattern = Pattern::new();
    let mut part = pattern.add_part();
    part.change_color(Rgb { r: 200, g: 10, b: 30 });
    let h = part.chain(&mut pattern).unwrap();
    match pattern.graph().node(h) {
        Node::Stitch { kind, turn, color } => {
            assert_eq!(kind, StitchKind::Chain);
            assert!(!turn);
            assert_eq!(color, Rgb { r: 200, g: 10, b: 30 });
        }
        other => panic!("expected a stitch, got {:?}", other),
    }
}

#[test]
fn error_messages_are_distinct() {
    let errs = [
        PatternError::EndOfRow,
        PatternError::NoInsert,
        PatternError::NoRows,
        PatternError::SewInvalidLengths,
        PatternError::NestedChainSpace,
        PatternError::NoChainSpace,
    ];
    for (i, a) in errs.iter().enumerate() {
        assert!(!a.message().is_empty());
        for (j, b) in errs.iter().enumerate() {
            if i != j {
                assert_ne!(a.message(), b.message());
            }
        }
    }
}

#[test]
fn insert_point_getter_follows_set_insert() {
    let mut pattern = Pattern::new();
    let mut part = pattern.add_part();
    assert_eq!(part.insert(), None);
    part.set_insert(0);
    assert_eq!(part.insert(), Some(0));
}

#[test]
fn turn_reverses_and_rows_snapshot() {
    let mut pattern = Pattern::new();
    let mut part = pattern.add_part();
    for _ in 0..2 {
        part.chain(&mut pattern).unwrap();
    }
    part.turn(&mut pattern).unwrap();
    // the turn chain opens the new row
    assert_eq!(part.current_row().unwrap().len(), 1);
    assert_eq!(part.previous_row().unwrap().len(), 3);
    let h = part.current_row().unwrap()[0];
    assert!(pattern.graph().node(h).is_turn());
}

#[test]
fn stitch_edge_degrees() {
    let mut pattern = Pattern::new();
    let mut part = pattern.add_part();
    part.chain(&mut pattern).unwrap();
    part.chain(&mut pattern).unwrap();
    part.new_row().unwrap();
    let dc = part.dc(&mut pattern).unwrap();
    let dec = part.dec(&mut pattern).unwrap();
    let g = pattern.graph();
    let count = |from: usize, ty: EdgeType| {
        let mut n = 0;
        for i in 0..g.edge_count() {
            let e = g.edge(i);
            if e.from == from && e.ty == ty {
                n += 1;
            }
        }
        n
    };
    // a double crochet carries one Previous and one Insert edge
    assert_eq!(count(dc, EdgeType::Previous), 1);
    assert_eq!(count(dc, EdgeType::Insert), 1);
    // a decrease carries one Previous and two Insert edges
    assert_eq!(count(dec, EdgeType::Previous), 1);
    assert_eq!(count(dec, EdgeType::Insert), 2);
}
