use numberlink::builder::{BuilderInvalidReason, SquareBoardBuilder};
use numberlink::cell::NumberlinkCell;
use numberlink::location::Location;
use numberlink::shape::{HexStep, SquareStep};

#[test]
fn remove_termini() {
    let mut builder = SquareBoardBuilder::with_dims((5, 5));
    builder.add_termini('A', (Location(0, 0), Location(1, 4)));
    builder.pop_termini();
    let board = builder.build().unwrap();

    assert_eq!(board.render(), ".....\n.....\n.....\n.....\n.....\n");
}

#[test]
fn square_invert_involution() {
    let dirs = vec![SquareStep::Up, SquareStep::Down, SquareStep::Left, SquareStep::Right];
    for d in dirs {
        assert_eq!(d.invert().invert(), d);
    }
}

#[test]
fn square_ensure_forward_is_forward() {
    let dirs = vec![SquareStep::Up, SquareStep::Down, SquareStep::Left, SquareStep::Right];
    for d in dirs {
        let f = d.ensure_forward();
        assert!(f == SquareStep::Right || f == SquareStep::Down);
    }
}

#[test]
fn hex_invert_involution() {
    let dirs = vec![
        HexStep::Up,
        HexStep::UpRight,
        HexStep::RightDown,
        HexStep::Down,
        HexStep::DownLeft,
        HexStep::LeftUp,
    ];
    for d in dirs {
        assert_eq!(d.invert().invert(), d);
        let f = d.ensure_forward();
        assert!(f == HexStep::Down || f == HexStep::RightDown || f == HexStep::DownLeft);
    }
}

#[test]
fn attempt_from_steps() {
    let loc = Location(2, 3);
    assert_eq!(SquareStep::Up.attempt_from(loc), Location(2, 2));
    assert_eq!(SquareStep::Down.attempt_from(loc), Location(2, 4));
    assert_eq!(SquareStep::Left.attempt_from(loc), Location(1, 3));
    assert_eq!(SquareStep::Right.attempt_from(loc), Location(3, 3));
    assert_eq!(SquareStep::direction_to(Location(2, 3), Location(3, 3)), Some(SquareStep::Right));
    assert_eq!(SquareStep::direction_to(Location(2, 3), Location(4, 3)), None);
}

#[test]
fn featureless_build_counts() {
    let builder = SquareBoardBuilder::with_dims((3, 4));
    let board = builder.build().unwrap();
    assert_eq!(board.graph.node_count(), 12);
    // w*(h-1) + h*(w-1) = 3*3 + 4*2
    assert_eq!(board.graph.edge_count(), 17);
}

#[test]
fn bridge_location_has_two_lanes() {
    let mut builder = SquareBoardBuilder::with_dims((5, 5));
    builder.add_termini('A', (Location(0, 0), Location(4, 4)));
    builder.add_bridge(Location(2, 1));
    let board = builder.build().unwrap();
    let lanes: Vec<_> =
        board.graph.nodes.iter().filter(|n| n.location == Location(2, 1)).collect();
    assert_eq!(lanes.len(), 2);
    for lane in lanes {
        assert!(matches!(lane.cell, NumberlinkCell::Bridge { .. }));
    }
}

#[test]
fn edge_directions_are_forward() {
    let mut builder = SquareBoardBuilder::with_dims((5, 3));
    builder.add_termini('A', (Location(0, 0), Location(4, 0)));
    builder.add_warp(Location(0, 1), None);
    builder.add_bridge(Location(2, 1));
    let board = builder.build().unwrap();
    for e in board.graph.edges.iter() {
        assert_eq!(e.direction, e.direction.ensure_forward());
        assert!(e.direction == SquareStep::Right || e.direction == SquareStep::Down);
    }
}

#[test]
fn two_nodes_per_affiliation() {
    let mut builder = SquareBoardBuilder::with_dims((4, 4));
    builder.add_termini('A', (Location(0, 0), Location(3, 3)));
    builder.add_termini('B', (Location(1, 0), Location(2, 3)));
    let board = builder.build().unwrap();
    for aff in 1..=2usize {
        let termini = board
            .graph
            .nodes
            .iter()
            .filter(|n| matches!(n.cell, NumberlinkCell::Terminus { affiliation } if affiliation == aff))
            .count();
        assert_eq!(termini, 2);
    }
}

#[test]
fn add_bridge_twice_is_once() {
    let mut once = SquareBoardBuilder::with_dims((5, 5));
    once.add_bridge(Location(2, 2));
    let mut twice = SquareBoardBuilder::with_dims((5, 5));
    twice.add_bridge(Location(2, 2));
    twice.add_bridge(Location(2, 2));
    assert_eq!(once.bridges, twice.bridges);
    assert_eq!(once.invalid_reasons, twice.invalid_reasons);
}

#[test]
fn disconnect_around_ignores_duplicates() {
    let mut dup = SquareBoardBuilder::with_dims((5, 5));
    dup.disconnect_around(
        Location(2, 2),
        vec![SquareStep::Left, SquareStep::Down, SquareStep::Left, SquareStep::Down],
    );
    let mut dedup = SquareBoardBuilder::with_dims((5, 5));
    dedup.disconnect_around(Location(2, 2), vec![SquareStep::Left, SquareStep::Down]);
    assert_eq!(dup.edge_blacklist, dedup.edge_blacklist);
    assert_eq!(dup.invalid_reasons, dedup.invalid_reasons);
}

#[test]
fn terminus_out_of_bounds_invalidates() {
    let mut builder = SquareBoardBuilder::with_dims((5, 5));
    builder.add_termini('A', (Location(5, 0), Location(0, 0)));
    let reasons = builder.is_valid().expect("builder should be invalid");
    assert!(matches!(reasons[0], BuilderInvalidReason::FeatureOutOfBounds));
    assert!(builder.build().is_err());
}

#[test]
fn bridge_on_edge_invalidates() {
    let mut builder = SquareBoardBuilder::with_dims((5, 5));
    builder.add_bridge(Location(0, 2));
    let reasons = builder.is_valid().expect("builder should be invalid");
    assert!(matches!(reasons[0], BuilderInvalidReason::FeatureOutOfBounds));
}

#[test]
fn warp_off_edge_invalidates() {
    let mut builder = SquareBoardBuilder::with_dims((5, 5));
    builder.add_warp(Location(2, 2), None);
    let reasons = builder.is_valid().expect("builder should be invalid");
    assert!(matches!(reasons[0], BuilderInvalidReason::WarpBadDirection));
}

#[test]
fn corner_warp_needs_direction() {
    let mut builder = SquareBoardBuilder::with_dims((5, 5));
    builder.add_warp(Location(0, 0), None);
    let reasons = builder.is_valid().expect("builder should be invalid");
    assert!(matches!(reasons[0], BuilderInvalidReason::WarpBadDirection));
}

#[test]
fn lowercase_display_renders_uppercase_terminus() {
    let mut builder = SquareBoardBuilder::with_dims((2, 1));
    builder.add_termini('a', (Location(0, 0), Location(1, 0)));
    let board = builder.build().unwrap();
    assert_eq!(board.render(), "AA\n");
}

#[test]
fn invalid_builder_mutations_are_noops() {
    let mut builder = SquareBoardBuilder::with_dims((5, 5));
    builder.add_termini('A', (Location(9, 9), Location(0, 0)));
    builder.add_termini('B', (Location(1, 1), Location(2, 2)));
    builder.add_bridge(Location(2, 2));
    builder.drop_location(Location(3, 3));
    assert_eq!(builder.affiliation_displays.len(), 0);
    assert_eq!(builder.bridges.len(), 0);
    assert_eq!(builder.location_blacklist.len(), 0);
    assert_eq!(builder.invalid_reasons.len(), 1);
}

#[test]
fn frozen_cells_report_exits() {
    let mut builder = SquareBoardBuilder::with_dims((5, 3));
    builder.add_termini('A', (Location(0, 0), Location(4, 0)));
    builder.add_warp(Location(0, 1), None);
    let board = builder.build().unwrap();
    let cells = numberlink::shape::SquareStep::gph_to_array((5, 3), &board.graph);
    assert_eq!(cells.len(), 15);
    // a corner cell exits rightward and downward
    assert_eq!(cells[0].exits, vec![SquareStep::Right, SquareStep::Down]);
    // the warp cell: the three grid neighbors, the warp edge adding no new
    // direction (its stored direction is the canonical Right)
    assert_eq!(
        cells[5].exits,
        vec![SquareStep::Up, SquareStep::Right, SquareStep::Down]
    );
}

#[test]
fn frozen_bridge_reports_lanes() {
    let mut builder = SquareBoardBuilder::with_dims((5, 5));
    builder.add_termini('A', (Location(0, 0), Location(4, 4)));
    builder.add_bridge(Location(2, 1));
    let board = builder.build().unwrap();
    let cells = numberlink::shape::SquareStep::gph_to_array((5, 5), &board.graph);
    match &cells[7].cell_type {
        numberlink::cell::FrozenCellKind::Bridge { affiliations } => {
            assert_eq!(
                affiliations,
                &vec![(SquareStep::Right, 0), (SquareStep::Down, 0)]
            );
        },
        _ => panic!("expected a bridge at the bridge site"),
    }
    assert_eq!(
        cells[7].exits,
        vec![SquareStep::Right, SquareStep::Left, SquareStep::Down, SquareStep::Up]
    );
}
