use numberlink::builder::SquareBoardBuilder;
use numberlink::location::Location;

#[test]
fn tests_remove_termini() {
    let mut builder = SquareBoardBuilder::with_dims((5, 5));
    builder.add_termini('A', (Location(0, 0), Location(1, 4)));
    builder.pop_termini();
    let board = builder.build().unwrap();

    assert_eq!(board.render(), ".....\n.....\n.....\n.....\n.....\n");
}

#[test]
fn tests_solve_most_basic() {
    // flow free classic pack level 1
    let mut builder = SquareBoardBuilder::with_dims((5, 5));
    builder.add_termini('A', (Location(0, 0), Location(1, 4)));
    builder.add_termini('B', (Location(2, 0), Location(1, 3)));
    builder.add_termini('C', (Location(2, 1), Location(2, 4)));
    builder.add_termini('D', (Location(4, 0), Location(3, 3)));
    builder.add_termini('E', (Location(4, 1), Location(3, 4)));
    let board = builder.build().unwrap();

    assert_eq!(board.render(), "A.B.D\n..C.E\n.....\n.B.D.\n.ACE.\n");

    let solved = board.solve().unwrap();
    assert_eq!(solved.render(), "AbBdD\nabCdE\nabcde\naBcDe\naACEe\n");
}

#[test]
fn tests_solve_large_simple_square() {
    // flow free extreme pack 2 12x12 level 13
    let mut builder = SquareBoardBuilder::with_dims((12, 12));
    builder.add_termini('A', (Location(7, 4), Location(4, 11)));
    builder.add_termini('B', (Location(6, 4), Location(5, 11)));
    builder.add_termini('C', (Location(6, 6), Location(0, 11)));
    builder.add_termini('D', (Location(2, 2), Location(7, 3)));
    builder.add_termini('E', (Location(5, 4), Location(7, 11)));
    builder.add_termini('F', (Location(7, 2), Location(3, 8)));
    builder.add_termini('G', (Location(2, 8), Location(5, 10)));
    let board = builder.build().unwrap();

    assert_eq!(
        board.render(),
        "............\n............\n..D....F....\n.......D....\n.....EBA....\n............\n......C.....\n............\n..GF........\n............\n.....G......\nC...AB.E....\n"
    );

    let solved = board.solve().unwrap();
    assert_eq!(
        solved.render(),
        "ccccceeeeeee\ncaaacebbbbbe\ncaDacebFffbe\ncadacebDdfbe\ncadacEBAdfbe\ncadacccadfbe\ncadaaaCadfbe\ncadddaaadfbe\ncaGFdddddfbe\ncagfffffffbe\ncagggGbbbbbe\nCaaaABbEeeee\n"
    );
}
