use numberlink::builder::SquareBoardBuilder;
use numberlink::location::Location;
use numberlink::shape::SquareStep;
use numberlink::solver::SolverFailure;

#[test]
fn solve_most_basic() {
    // flow free classic pack level 1
    let mut builder = SquareBoardBuilder::with_dims((5, 5));
    builder.add_termini('A', (Location(0, 0), Location(1, 4)));
    builder.add_termini('B', (Location(2, 0), Location(1, 3)));
    builder.add_termini('C', (Location(2, 1), Location(2, 4)));
    builder.add_termini('D', (Location(4, 0), Location(3, 3)));
    builder.add_termini('E', (Location(4, 1), Location(3, 4)));
    let board = builder.build().unwrap();

    assert_eq!(board.render(), "A.B.D\n..C.E\n.....\n.B.D.\n.ACE.\n");

    let solved = board.solve().unwrap();
    assert_eq!(solved.render(), "AbBdD\nabCdE\nabcde\naBcDe\naACEe\n");
}

#[test]
fn solve_large_simple_square() {
    // flow free extreme pack 2 12x12 level 13
    let mut builder = SquareBoardBuilder::with_dims((12, 12));
    builder.add_termini('A', (Location(7, 4), Location(4, 11)));
    builder.add_termini('B', (Location(6, 4), Location(5, 11)));
    builder.add_termini('C', (Location(6, 6), Location(0, 11)));
    builder.add_termini('D', (Location(2, 2), Location(7, 3)));
    builder.add_termini('E', (Location(5, 4), Location(7, 11)));
    builder.add_termini('F', (Location(7, 2), Location(3, 8)));
    builder.add_termini('G', (Location(2, 8), Location(5, 10)));
    let board = builder.build().unwrap();

    assert_eq!(
        board.render(),
        "............\n............\n..D....F....\n.......D....\n.....EBA....\n............\n......C.....\n............\n..GF........\n............\n.....G......\nC...AB.E....\n"
    );

    let solved = board.solve().unwrap();
    assert_eq!(
        solved.render(),
        "ccccceeeeeee\ncaaacebbbbbe\ncaDacebFffbe\ncadacebDdfbe\ncadacEBAdfbe\ncadacccadfbe\ncadaaaCadfbe\ncadddaaadfbe\ncaGFdddddfbe\ncagfffffffbe\ncagggGbbbbbe\nCaaaABbEeeee\n"
    );
}

#[test]
fn simple_with_bridge() {
    // flow free bridges starter pack 5x5 level 2
    let mut builder = SquareBoardBuilder::with_dims((5, 5));
    builder.add_termini('A', (Location(1, 3), Location(3, 0)));
    builder.add_termini('B', (Location(1, 4), Location(4, 3)));
    builder.add_termini('C', (Location(0, 0), Location(0, 4)));
    builder.add_termini('D', (Location(1, 0), Location(2, 2)));
    builder.add_termini('E', (Location(4, 0), Location(2, 3)));
    builder.add_bridge(Location(2, 1));
    let board = builder.build().unwrap();

    assert_eq!(board.render(), "CD.AE\n..+..\n..D..\n.AE.B\nCB...\n");

    let solved = board.solve().unwrap();
    assert_eq!(solved.render(), "CDdAE\nca+ae\ncaDee\ncAEeB\nCBbbb\n");
}

#[test]
fn adjacent_bridges() {
    // flow free bridges hashed pack 7x7 level 1
    let mut builder = SquareBoardBuilder::with_dims((7, 7));
    builder.add_termini('A', (Location(0, 5), Location(5, 6)));
    builder.add_termini('B', (Location(0, 0), Location(6, 6)));
    builder.add_termini('C', (Location(1, 1), Location(6, 1)));
    builder.add_termini('D', (Location(1, 2), Location(6, 4)));
    builder.add_termini('E', (Location(1, 5), Location(6, 2)));
    builder.add_termini('F', (Location(4, 2), Location(4, 5)));
    builder.add_bridge(Location(2, 3));
    builder.add_bridge(Location(2, 4));
    builder.add_bridge(Location(3, 3));
    builder.add_bridge(Location(3, 4));
    let board = builder.build().unwrap();

    assert_eq!(
        board.render(),
        "B......\n.C....C\n.D..F.E\n..++...\n..++..D\nAE..F..\n.....AB\n"
    );

    let solved = board.solve().unwrap();
    assert_eq!(
        solved.render(),
        "Bcccccc\nbCeeeeC\nbDefFeE\nbd++ddd\nbb++bbD\nAEefFbb\naaaaaAB\n"
    );
}

#[test]
fn simple_with_warp() {
    // flow free warps starter pack level 2
    let mut builder = SquareBoardBuilder::with_dims((5, 3));
    builder.add_termini('A', (Location(0, 0), Location(4, 0)));
    builder.add_termini('B', (Location(3, 1), Location(4, 2)));
    builder.add_termini('C', (Location(0, 2), Location(2, 1)));
    builder.add_termini('D', (Location(1, 1), Location(4, 1)));
    builder.add_warp(Location(0, 1), None);
    let board = builder.build().unwrap();

    assert_eq!(board.render(), "A...A\n.DCBD\nC...B\n");

    let solved = board.solve().unwrap();
    assert_eq!(solved.render(), "AaaaA\ndDCBD\nCccbB\n");
}

#[test]
fn warp_with_holes() {
    // flow free warps starter pack level 1
    let mut builder = SquareBoardBuilder::with_dims((6, 3));
    builder.add_termini('A', (Location(0, 1), Location(4, 1)));
    builder.add_termini('B', (Location(1, 0), Location(3, 0)));
    builder.add_termini('C', (Location(1, 1), Location(3, 1)));
    builder.add_termini('D', (Location(1, 2), Location(3, 2)));
    builder.add_warp(Location(0, 1), None);
    builder.drop_location(Location(0, 0));
    builder.drop_location(Location(0, 2));
    builder.drop_location(Location(4, 0));
    builder.drop_location(Location(5, 0));
    builder.drop_location(Location(4, 2));
    builder.drop_location(Location(5, 2));
    let board = builder.build().unwrap();

    assert_eq!(board.render(), ".B.B..\nAC.CA.\n.D.D..\n");

    let solved = board.solve().unwrap();
    assert_eq!(solved.render(), ".BbB..\nACcCAa\n.DdD..\n");
}

#[test]
fn walls() {
    // flow free pockets pack level 1
    let mut builder = SquareBoardBuilder::with_dims((8, 8));
    builder.add_termini('A', (Location(1, 2), Location(6, 5)));
    builder.disconnect_around(
        Location(1, 2),
        vec![SquareStep::Left, SquareStep::Down, SquareStep::Right],
    );
    builder.disconnect_around(
        Location(6, 5),
        vec![SquareStep::Left, SquareStep::Down, SquareStep::Right],
    );
    builder.add_termini('B', (Location(2, 5), Location(4, 5)));
    builder.disconnect_around(
        Location(2, 5),
        vec![SquareStep::Left, SquareStep::Down, SquareStep::Right],
    );
    builder.add_termini('C', (Location(4, 4), Location(7, 7)));
    builder.disconnect_around(
        Location(4, 4),
        vec![SquareStep::Left, SquareStep::Down, SquareStep::Right],
    );
    builder.add_termini('D', (Location(5, 2), Location(7, 5)));
    builder.disconnect_around(
        Location(5, 2),
        vec![SquareStep::Left, SquareStep::Down, SquareStep::Right],
    );
    builder.add_termini('E', (Location(3, 1), Location(3, 7)));
    builder.disconnect_around(
        Location(3, 1),
        vec![SquareStep::Left, SquareStep::Down, SquareStep::Right],
    );
    let board = builder.build().unwrap();

    assert_eq!(
        board.render(),
        "........\n...E....\n.A...D..\n........\n....C...\n..B.B.AD\n........\n...E...C\n"
    );

    let solved = board.solve().unwrap();
    assert_eq!(
        solved.render(),
        "eeeeaaaa\neaaEadda\neAaaaDda\neccccdda\necbbCdaa\necBbBdAD\neccccddd\neeeEcccC\n"
    );
}

#[test]
fn warps_and_bridges() {
    // flow free bridges warps pack level 150
    let mut builder = SquareBoardBuilder::with_dims((9, 9));
    builder.add_termini('A', (Location(6, 1), Location(7, 2)));
    builder.add_termini('B', (Location(3, 2), Location(5, 6)));
    builder.add_termini('C', (Location(3, 4), Location(5, 3)));
    builder.add_termini('D', (Location(2, 7), Location(6, 3)));
    builder.add_termini('E', (Location(6, 2), Location(7, 7)));
    builder.add_termini('F', (Location(2, 6), Location(4, 8)));
    builder.add_termini('G', (Location(1, 0), Location(0, 3)));
    builder.add_termini('H', (Location(3, 1), Location(3, 3)));
    builder.add_termini('I', (Location(0, 8), Location(3, 7)));
    builder.add_termini('J', (Location(5, 5), Location(5, 8)));
    builder.add_warp(Location(4, 0), None);
    builder.add_warp(Location(4, 8), None);
    builder.add_warp(Location(0, 4), None);
    builder.add_warp(Location(8, 4), None);
    builder.add_bridge(Location(4, 6));
    let board = builder.build().unwrap();

    assert_eq!(
        board.render(),
        ".G.......\n...H..A..\n...B..EA.\nG..H.CD..\n...C.....\n.....J...\n..F.+B...\n..DI...E.\nI...FJ...\n"
    );

    let solved = board.solve().unwrap();
    assert_eq!(
        solved.render(),
        "gGfffeeee\ngffHheAae\ngfbBheEAe\nGfbHhCDee\ndfbCccded\ndfbbjJded\ndfFb+Bded\nddDIjjdEd\nIiiiFJddd\n"
    );
}

#[test]
fn isolated_terminus_is_inconsistent() {
    let mut builder = SquareBoardBuilder::with_dims((3, 3));
    builder.add_termini('A', (Location(0, 0), Location(2, 2)));
    builder.drop_location(Location(1, 0));
    builder.drop_location(Location(0, 1));
    let board = builder.build().unwrap();
    assert_eq!(board.solve().unwrap_err(), SolverFailure::Inconsistent);
}

#[test]
fn leftover_cell_is_inconsistent() {
    // the third cell of the row cannot lie on any path
    let mut builder = SquareBoardBuilder::with_dims((3, 1));
    builder.add_termini('A', (Location(0, 0), Location(1, 0)));
    let board = builder.build().unwrap();
    // (2,0) is empty and must take color A, but it has only one neighbor
    // carrying A's path, so its "enters and exits" rule fails
    assert_eq!(board.solve().unwrap_err(), SolverFailure::Inconsistent);
}

#[test]
fn solved_edges_match_endpoints() {
    let mut builder = SquareBoardBuilder::with_dims((3, 2));
    builder.add_termini('A', (Location(0, 0), Location(2, 0)));
    builder.add_termini('B', (Location(0, 1), Location(2, 1)));
    let board = builder.build().unwrap();
    let solved = board.solve().unwrap();
    let affs: Vec<usize> = solved
        .graph
        .nodes
        .iter()
        .map(|n| match n.cell {
            numberlink::cell::NumberlinkCell::Terminus { affiliation } => affiliation,
            numberlink::cell::NumberlinkCell::Path { affiliation } => affiliation,
            _ => 0,
        })
        .collect();
    for e in solved.graph.edges.iter() {
        if e.affiliation == 0 {
            assert_ne!(affs[e.a], affs[e.b]);
        } else {
            assert_eq!(affs[e.a], e.affiliation);
            assert_eq!(affs[e.b], e.affiliation);
        }
    }
}
