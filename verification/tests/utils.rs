use polyomino::point::Point;
use polyomino::polyomino::Polyomino;
use polyomino::utils::build_dominoes;
use polyomino::utils::build_monominoes;
use polyomino::utils::build_pentominoes;
use polyomino::utils::build_rect_variations;
use polyomino::utils::build_tetrominoes;
use polyomino::utils::build_triominoes;
use polyomino::utils::build_variations;
use polyomino::utils::read_polyomino_string;
use polyomino::utils::PredefinedPolyominoes;
use polyomino::utils::Restrictions;

#[test]
fn count_tetrominoes() {
    let mut i = 0;
    for p in build_tetrominoes() {
        i += p.make_all_variations().len();
    }
    assert_eq!(i, 19);
}

#[test]
fn count_pentominoes() {
    let mut i = 0;
    for p in build_pentominoes() {
        i += p.make_all_variations().len();
    }
    assert_eq!(i, 63);
}

#[test]
fn sets_have_the_known_sizes() {
    assert_eq!(build_monominoes().len(), 1);
    assert_eq!(build_dominoes().len(), 1);
    assert_eq!(build_triominoes().len(), 2);
    assert_eq!(build_tetrominoes().len(), 5);
    assert_eq!(build_pentominoes().len(), 12);
    for p in build_pentominoes() {
        assert_eq!(p.len(), 5);
    }
    for p in build_tetrominoes() {
        assert_eq!(p.len(), 4);
    }
}

fn sizes(groups: &Vec<Vec<Polyomino>>) -> Vec<usize> {
    groups.iter().map(|g| g.len()).collect()
}

#[test]
fn variations_without_restriction() {
    let polys = build_pentominoes();
    let groups = build_variations(&polys, Restrictions::Unrestricted);
    assert_eq!(sizes(&groups), vec![2, 8, 8, 4, 8, 8, 4, 8, 4, 4, 4, 1]);
}

#[test]
fn rectangular_symmetry_cuts_the_first_asymmetric_shape_to_two() {
    let polys = build_pentominoes();
    let groups = build_variations(&polys, Restrictions::RectangularSymmetry);
    assert_eq!(sizes(&groups), vec![2, 2, 8, 4, 8, 8, 4, 8, 4, 4, 4, 1]);
    assert!(groups[1][0] == polys[1]);
    assert!(groups[1][1] == polys[1].rotate());
    assert_eq!(sizes(&build_rect_variations(&polys)), sizes(&groups));
}

#[test]
fn square_symmetry_cuts_the_first_asymmetric_shape_to_one() {
    let polys = build_pentominoes();
    let groups = build_variations(&polys, Restrictions::SquareSymmetry);
    assert_eq!(sizes(&groups), vec![2, 1, 8, 4, 8, 8, 4, 8, 4, 4, 4, 1]);
    assert!(groups[1][0] == polys[1]);
}

#[test]
fn restriction_without_an_asymmetric_shape_changes_nothing() {
    let polys = build_triominoes();
    assert_eq!(sizes(&build_variations(&polys, Restrictions::SquareSymmetry)), vec![2, 4]);
    assert_eq!(sizes(&build_variations(&polys, Restrictions::RectangularSymmetry)), vec![2, 4]);
    assert_eq!(sizes(&build_variations(&Vec::new(), Restrictions::Unrestricted)), Vec::<usize>::new());
}

#[test]
fn predefined_sets_name_their_files() {
    assert_eq!(PredefinedPolyominoes::Pentominoes.file_name(), "data/pentomino.poly");
    assert_eq!(PredefinedPolyominoes::Monominoes.file_name(), "data/monomino.poly");
    assert_eq!(PredefinedPolyominoes::Octominoes.file_name(), "data/octomino.poly");
    assert_eq!(PredefinedPolyominoes::Hexominoes.cell_count(), 6);
    assert_eq!(PredefinedPolyominoes::Dominoes.cell_count(), 2);
}

fn points(p: &Polyomino) -> Vec<(usize, usize)> {
    p.iter().map(|q| (q.x, q.y)).collect()
}

#[test]
fn shapes_from_text() {
    let polys = read_polyomino_string("XX\nX\n\nXXX\n");
    assert_eq!(polys.len(), 2);
    assert_eq!(points(&polys[0]), vec![(0, 0), (0, 1), (1, 0)]);
    assert_eq!(points(&polys[1]), vec![(0, 0), (0, 1), (0, 2)]);
}

#[test]
fn a_shape_without_a_line_break_at_the_end() {
    let polys = read_polyomino_string(" X\nXXX\n X");
    assert_eq!(polys.len(), 1);
    assert!(
        polys[0]
            == Polyomino::new(vec![
                Point::new(1, 0),
                Point::new(1, 1),
                Point::new(1, 2),
                Point::new(0, 1),
                Point::new(2, 1),
            ])
    );
}

#[test]
fn empty_lines_end_shapes_even_empty_ones() {
    // No text is one empty line.
    let polys = read_polyomino_string("");
    assert_eq!(polys.len(), 1);
    assert_eq!(polys[0].len(), 0);
    // Two empty lines in a row end a shape and an empty shape.
    let polys = read_polyomino_string("X\n\n\nX");
    assert_eq!(polys.len(), 3);
    assert_eq!(polys[1].len(), 0);
    // A line of spaces is a row without points.
    let polys = read_polyomino_string("X\n  \nX\n");
    assert_eq!(polys.len(), 1);
    assert_eq!(points(&polys[0]), vec![(0, 0), (2, 0)]);
}

#[test]
fn the_sets_as_text() {
    let text = "XXXXX\n\nXXXX\n   X\n\nXXXX\n  X\n\nXXX\n X\n X\n\nXXX\nXX\n\nXX\n XXX\n\nXX\n XX\n  X\n\n X\nXXX\n  X\n\nXXX\nX X\n\nXXX\nX\nX\n\nX\nXXX\n  X\n\n X\nXXX\n X\n";
    let polys = read_polyomino_string(text);
    assert_eq!(polys.len(), 12);
    let built = build_pentominoes();
    for (read, made) in polys.iter().zip(built.iter()) {
        assert!(read == made);
    }
}
