use polyomino::point::Point;
use polyomino::polyomino::Polyomino;

fn build_f_pentomino() -> Polyomino {
    let mut v = Vec::new();
    v.push(Point::new(0, 1));
    v.push(Point::new(1, 1));
    v.push(Point::new(1, 0));
    v.push(Point::new(2, 2));
    v.push(Point::new(1, 2));

    Polyomino::new(v)
}

// Add points in different order, with duplicate
fn build_alt_f_pentomino() -> Polyomino {
    let mut v = Vec::new();
    v.push(Point::new(2, 2));
    v.push(Point::new(1, 0));
    v.push(Point::new(1, 2));
    v.push(Point::new(1, 0));
    v.push(Point::new(1, 1));
    v.push(Point::new(0, 1));

    Polyomino::new(v)
}

fn build_i_pentomino() -> Polyomino {
    let mut v = Vec::new();
    v.push(Point::new(0, 0));
    v.push(Point::new(0, 1));
    v.push(Point::new(0, 2));
    v.push(Point::new(0, 3));
    v.push(Point::new(0, 4));

    Polyomino::new(v)
}

fn build_alt_i_pentomino() -> Polyomino {
    let mut v = Vec::new();
    v.push(Point::new(0, 4));
    v.push(Point::new(0, 3));
    v.push(Point::new(0, 2));
    v.push(Point::new(0, 1));
    v.push(Point::new(0, 0));

    Polyomino::new(v)
}

fn build_v_pentomino() -> Polyomino {
    let mut v = Vec::new();
    v.push(Point::new(0, 0));
    v.push(Point::new(0, 1));
    v.push(Point::new(0, 2));
    v.push(Point::new(1, 0));
    v.push(Point::new(2, 0));

    Polyomino::new(v)
}

fn shape(points: &[(usize, usize)]) -> Polyomino {
    Polyomino::new(points.iter().map(|&(x, y)| Point::new(x, y)).collect())
}

fn points(p: &Polyomino) -> Vec<(usize, usize)> {
    p.iter().map(|q| (q.x, q.y)).collect()
}

#[test]
fn count() {
    assert_eq!(build_f_pentomino().iter().count(), 5);
}

#[test]
fn rot() {
    let f = build_f_pentomino();
    let f_alt = build_alt_f_pentomino();
    let i = build_i_pentomino();
    let i_alt = build_alt_i_pentomino();

    assert!(f == f);
    assert!(f == f_alt);
    assert!(i == i_alt);
    assert!(i == i.rotate().rotate());
    assert!(i == i.flip());
    assert!(f != f.rotate());
    assert!(f == f.rotate().rotate().rotate().rotate());
    assert!(f.rotate().rotate().flip() == f.flip().rotate().rotate());
}

#[test]
fn variations() {
    assert_eq!(build_f_pentomino().make_all_variations().len(), 8);
    assert_eq!(build_i_pentomino().make_all_variations().len(), 2);
    assert_eq!(build_v_pentomino().make_all_variations().len(), 4);
}

#[test]
fn new_sorts_and_drops_repeats() {
    let f = build_alt_f_pentomino();
    assert_eq!(points(&f), vec![(0, 1), (1, 0), (1, 1), (1, 2), (2, 2)]);
    assert_eq!(f.len(), 5);
    assert_eq!(f.get_nth(0), Some(&Point::new(0, 1)));
    assert_eq!(f.get_nth(4), Some(&Point::new(2, 2)));
    assert_eq!(f.get_nth(5), None);
    let none = Polyomino::new(Vec::new());
    assert_eq!(none.len(), 0);
    assert_eq!(none.get_nth(0), None);
}

#[test]
fn rotate_is_a_quarter_turn_in_the_bounding_box() {
    // (x, y) -> (h - y, x) with h = 2.
    let f = build_f_pentomino();
    assert_eq!(points(&f.rotate()), vec![(0, 1), (0, 2), (1, 0), (1, 1), (2, 1)]);
    // (x, y) -> (w - x, y) with w = 2.
    assert_eq!(points(&f.flip()), vec![(0, 2), (1, 0), (1, 1), (1, 2), (2, 1)]);
    assert_eq!(f.bbox_top_right(), Point::new(2, 2));
}

#[test]
fn bounding_box_corner_need_not_be_a_cell() {
    let x = shape(&[(1, 0), (1, 1), (1, 2), (0, 1), (2, 1)]);
    assert_eq!(x.bbox_top_right(), Point::new(2, 2));
    assert!(!points(&x).contains(&(2, 2)));
    assert_eq!(Polyomino::new(Vec::new()).bbox_top_right(), Point::new(0, 0));
}

#[test]
fn four_turns_and_two_flips_of_every_pentomino() {
    for p in polyomino::utils::build_pentominoes() {
        assert!(p.rotate().rotate().rotate().rotate() == p);
        assert!(p.flip().flip() == p);
        let n = p.make_all_variations().len();
        assert!(n == 1 || n == 2 || n == 4 || n == 8);
    }
}

#[test]
fn a_shape_off_the_axes_does_not_come_back() {
    // Four turns bring a shape back to the axes.
    let p = shape(&[(3, 5)]);
    assert_eq!(points(&p.rotate().rotate().rotate().rotate()), vec![(0, 0)]);
    let q = shape(&[(1, 0)]);
    assert_eq!(points(&q.flip().flip()), vec![(0, 0)]);
    assert_eq!(q.make_all_variations().len(), 3);
}

#[test]
fn variations_are_the_distinct_images() {
    let x = shape(&[(1, 0), (1, 1), (1, 2), (0, 1), (2, 1)]);
    let all = x.make_all_variations();
    assert_eq!(all.len(), 1);
    assert!(all[0] == x);

    let f = build_f_pentomino();
    let all = f.make_all_variations();
    let images = vec![
        f.clone(),
        f.rotate(),
        f.rotate().rotate(),
        f.rotate().rotate().rotate(),
        f.flip(),
        f.flip().rotate(),
        f.flip().rotate().rotate(),
        f.flip().rotate().rotate().rotate(),
    ];
    for image in &images {
        assert_eq!(all.iter().filter(|v| *v == image).count(), 1);
    }
    for v in &all {
        assert!(images.contains(v));
    }
    assert_eq!(Polyomino::new(Vec::new()).make_all_variations().len(), 1);
}

#[test]
fn picture_of_a_shape() {
    assert_eq!(build_f_pentomino().render(), " XX\nXX \n X \n");
    assert_eq!(build_i_pentomino().render(), "X\nX\nX\nX\nX\n");
    assert_eq!(shape(&[(2, 0)]).render(), "  X\n");
    assert_eq!(Polyomino::new(Vec::new()).render(), " \n");
}

#[test]
fn same_points_and_membership() {
    let f = build_f_pentomino();
    assert!(f.same_as(&build_alt_f_pentomino()));
    assert!(!f.same_as(&build_i_pentomino()));
    assert!(!f.same_as(&f.rotate()));
    assert!(f.contains(1, 0));
    assert!(f.contains(2, 2));
    assert!(!f.contains(0, 0));
    assert!(!f.contains(2, 1));
    assert!(f.clone() == f);
}

#[test]
fn the_set_of_variations() {
    let f = build_f_pentomino();
    let set = f.make_variations();
    assert_eq!(set.len(), 8);
    assert!(set.contains(&vec![(0, 1), (1, 0), (1, 1), (1, 2), (2, 2)]));
    assert!(set.contains(&points(&f.rotate())));
    assert!(set.contains(&points(&f.flip().rotate().rotate().rotate())));
    assert_eq!(build_i_pentomino().make_variations().len(), 2);
}
