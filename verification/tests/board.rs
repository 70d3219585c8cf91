use polyomino::board::board_utils;
use polyomino::board::Board;
use polyomino::board::BoardState;
use polyomino::point::Point;
use polyomino::polyomino::Polyomino;

fn build_u() -> Polyomino {
    let mut p = Vec::new();
    p.push(Point::new(0, 0));
    p.push(Point::new(1, 0));
    p.push(Point::new(0, 1));
    p.push(Point::new(0, 2));
    p.push(Point::new(1, 2));

    Polyomino::new(p)
}

fn build_x() -> Polyomino {
    let mut p = Vec::new();
    p.push(Point::new(1, 0));
    p.push(Point::new(1, 1));
    p.push(Point::new(1, 2));
    p.push(Point::new(0, 1));
    p.push(Point::new(2, 1));

    Polyomino::new(p)
}

fn build_w() -> Polyomino {
    let mut p = Vec::new();
    p.push(Point::new(0, 0));
    p.push(Point::new(1, 0));
    p.push(Point::new(1, 1));
    p.push(Point::new(2, 1));
    p.push(Point::new(2, 2));

    Polyomino::new(p)
}

fn build_l() -> Polyomino {
    let mut p = Vec::new();
    p.push(Point::new(0, 0));
    p.push(Point::new(0, 1));
    p.push(Point::new(0, 2));
    p.push(Point::new(0, 3));
    p.push(Point::new(1, 3));

    Polyomino::new(p)
}

fn build_i() -> Polyomino {
    let mut p = Vec::new();
    p.push(Point::new(0, 0));
    p.push(Point::new(1, 0));
    p.push(Point::new(2, 0));
    p.push(Point::new(3, 0));
    p.push(Point::new(4, 0));

    Polyomino::new(p)
}

fn build_y() -> Polyomino {
    let mut p = Vec::new();
    p.push(Point::new(0, 1));
    p.push(Point::new(1, 1));
    p.push(Point::new(2, 1));
    p.push(Point::new(3, 1));
    p.push(Point::new(2, 0));

    Polyomino::new(p)
}

#[test]
fn test_add_remove() {
    let w = build_w();
    let l = build_l();

    let mut b = Board::new(12, 5);
    b.add_polyomino(&w, Point::new(0, 0));
    b.add_polyomino(&l, Point::new(4, 0));
    assert!(b.get(0, 0) == BoardState::Full(&w, 0, 0));
    assert!(b.get(4, 0) == BoardState::Full(&l, 4, 0));
    assert!(b.get(4, 3) == BoardState::Full(&l, 4, 0));
    b.remove_polyomino(Point::new(1, 1));
    assert!(b.get(0, 0) == BoardState::Empty);
    assert!(b.get(4, 0) == BoardState::Full(&l, 4, 0));
    b.remove_polyomino(Point::new(4, 2));
    assert!(b.get(4, 0) == BoardState::Empty);
}

#[test]
fn test_fit() {
    let u = build_u();
    let x = build_x();
    let l = build_l();
    let l_rot = l.rotate();
    let y = build_y();
    let i = build_i();

    let mut b = Board::new(20, 3);
    assert_eq!(board_utils::get_first_unoccupied(&b), Some(Point::new(0, 0)));
    assert_eq!(board_utils::fit(&mut b, &y), None);
    assert_eq!(board_utils::fit(&mut b, &u), Some(Point::new(0, 0)));
    assert_eq!(board_utils::fit(&mut b, &l_rot), None);
    assert_eq!(board_utils::get_first_unoccupied(&b), Some(Point::new(1, 1)));
    assert_eq!(board_utils::fit(&mut b, &x), Some(Point::new(1, 1)));
    assert_eq!(board_utils::get_first_unoccupied(&b), Some(Point::new(3, 0)));
    assert_eq!(board_utils::fit(&mut b, &i), Some(Point::new(3, 0)));
}

#[test]
fn test_get_adjacent() {
    // X.X
    // ...
    // X.X
    // X.X
    let mut b = Board::new(3, 4);

    b.erase(0, 0);
    b.erase(2, 0);
    b.erase(0, 2);
    b.erase(2, 2);
    b.erase(0, 3);
    b.erase(2, 3);

    assert_eq!(board_utils::get_adjacent(Point::new(1, 1), &b).len(), 4);

    assert_eq!(board_utils::get_adjacent(Point::new(1, 3), &b).len(), 1);

    assert_eq!(board_utils::get_adjacent(Point::new(2, 1), &b).len(), 1);
}

#[test]
fn new_board_is_empty_and_void_outside() {
    let b = Board::new(4, 3);
    assert_eq!(b.get_width(), 4);
    assert_eq!(b.get_height(), 3);
    assert_eq!(b.col_range(), 0..4);
    assert_eq!(b.row_range(), 0..3);
    for x in 0..4 {
        for y in 0..3 {
            assert_eq!(b.get(x, y), BoardState::Empty);
        }
    }
    assert_eq!(b.get(4, 0), BoardState::Void);
    assert_eq!(b.get(0, 3), BoardState::Void);
    assert_eq!(b.get(usize::MAX, usize::MAX), BoardState::Void);
}

#[test]
fn erase_makes_a_hole_and_nothing_else() {
    let mut b = Board::new(3, 3);
    b.erase(1, 2);
    b.erase(7, 7);
    for x in 0..3 {
        for y in 0..3 {
            let expected = if (x, y) == (1, 2) { BoardState::Void } else { BoardState::Empty };
            assert_eq!(b.get(x, y), expected);
        }
    }
}

fn cells<'a>(b: &Board<'a>) -> Vec<BoardState<'a>> {
    let mut all = Vec::new();
    for x in 0..b.get_width() {
        for y in 0..b.get_height() {
            all.push(b.get(x, y));
        }
    }
    all
}

#[test]
fn failed_placement_changes_nothing() {
    let w = build_w();
    let l = build_l();
    let u = build_u();
    let mut b = Board::new(6, 4);
    b.erase(5, 3);
    assert!(b.add_polyomino(&w, Point::new(0, 0)));
    let before = cells(&b);
    // Overlaps the piece that is there.
    assert!(!b.add_polyomino(&l, Point::new(2, 0)));
    assert_eq!(cells(&b), before);
    // Hangs over the edge.
    assert!(!b.add_polyomino(&l, Point::new(5, 1)));
    assert_eq!(cells(&b), before);
    // Covers the hole.
    assert!(!b.add_polyomino(&u, Point::new(4, 1)));
    assert_eq!(cells(&b), before);
    // Lies wholly off the board, and beyond what a coordinate can hold.
    assert!(!b.add_polyomino(&l, Point::new(usize::MAX, usize::MAX)));
    assert_eq!(cells(&b), before);
}

#[test]
fn place_and_remove_restores_the_board() {
    let w = build_w();
    let x = build_x();
    let mut b = Board::new(6, 4);
    b.erase(5, 3);
    assert!(b.add_polyomino(&w, Point::new(0, 0)));
    let before = cells(&b);
    assert!(b.add_polyomino(&x, Point::new(3, 0)));
    assert_eq!(b.get(4, 0), BoardState::Full(&x, 3, 0));
    assert_eq!(b.get(3, 1), BoardState::Full(&x, 3, 0));
    assert_eq!(b.get(3, 0), BoardState::Empty);
    // The origin of the cross is no cell of it: nothing is lifted there.
    b.remove_polyomino(Point::new(3, 0));
    assert_eq!(b.get(4, 0), BoardState::Full(&x, 3, 0));
    // Any cell of the cross lifts it.
    b.remove_polyomino(Point::new(5, 1));
    assert_eq!(cells(&b), before);
    // A piece with a cell at its origin is lifted by its origin.
    b.remove_polyomino(Point::new(0, 0));
    for x in 0..6 {
        for y in 0..4 {
            let expected = if (x, y) == (5, 3) { BoardState::Void } else { BoardState::Empty };
            assert_eq!(b.get(x, y), expected);
        }
    }
}

#[test]
fn remove_where_nothing_is_placed_changes_nothing() {
    let w = build_w();
    let mut b = Board::new(5, 5);
    b.erase(4, 4);
    assert!(b.add_polyomino(&w, Point::new(1, 1)));
    let before = cells(&b);
    b.remove_polyomino(Point::new(0, 0));
    b.remove_polyomino(Point::new(4, 4));
    b.remove_polyomino(Point::new(9, 9));
    assert_eq!(cells(&b), before);
}

#[test]
fn fit_at_puts_the_first_point_on_the_target() {
    // The first point of this shape in canonical order is (1, 0).
    let s = Polyomino::new(vec![Point::new(1, 0), Point::new(1, 1), Point::new(2, 0)]);
    assert_eq!(s.get_nth(0), Some(&Point::new(1, 0)));
    let filler = Polyomino::new(vec![Point::new(0, 0), Point::new(1, 0), Point::new(2, 0)]);
    let mut b = Board::new(6, 1 + 1);
    assert!(b.add_polyomino(&filler, Point::new(0, 0)));
    assert!(b.add_polyomino(&filler, Point::new(0, 1)));
    assert_eq!(board_utils::get_first_unoccupied(&b), Some(Point::new(3, 0)));
    assert_eq!(board_utils::fit_at(&mut b, &s, Point::new(3, 0)), Some(Point::new(2, 0)));
    assert_eq!(b.get(3, 0), BoardState::Full(&s, 2, 0));
    assert_eq!(b.get(3, 1), BoardState::Full(&s, 2, 0));
    assert_eq!(b.get(4, 0), BoardState::Full(&s, 2, 0));
    assert_eq!(b.get(4, 1), BoardState::Empty);
    assert_eq!(b.get(2, 0), BoardState::Full(&filler, 0, 0));
}

#[test]
fn fit_at_fails_left_of_the_anchor_and_for_the_empty_shape() {
    let x = build_x();
    let none = Polyomino::new(Vec::new());
    let mut b = Board::new(5, 5);
    // The cross has its first point at (0, 1): it cannot go on row 0.
    assert_eq!(board_utils::fit_at(&mut b, &x, Point::new(2, 0)), None);
    assert_eq!(board_utils::fit_at(&mut b, &none, Point::new(2, 2)), None);
    assert_eq!(board_utils::get_first_unoccupied(&b), Some(Point::new(0, 0)));
    assert_eq!(board_utils::fit_at(&mut b, &x, Point::new(1, 1)), Some(Point::new(1, 0)));
}

#[test]
fn first_unoccupied_goes_up_a_column_first() {
    let i = Polyomino::new(vec![Point::new(0, 0), Point::new(0, 1)]);
    let mut b = Board::new(2, 3);
    assert!(b.add_polyomino(&i, Point::new(0, 0)));
    assert_eq!(board_utils::get_first_unoccupied(&b), Some(Point::new(0, 2)));
    b.erase(0, 2);
    assert_eq!(board_utils::get_first_unoccupied(&b), Some(Point::new(1, 0)));
    b.erase(1, 0);
    b.erase(1, 1);
    b.erase(1, 2);
    assert_eq!(board_utils::get_first_unoccupied(&b), None);
}

#[test]
fn region_is_what_can_be_walked_to() {
    // .X..
    // .X.X
    // ...X  (row 0 is drawn last)
    let mut b = Board::new(4, 3);
    b.erase(1, 1);
    b.erase(1, 2);
    b.erase(3, 0);
    b.erase(3, 1);
    let region = board_utils::get_all_adjacent(Point::new(0, 0), &b);
    assert_eq!(region.len(), 8);
    assert!(region.contains(&(3, 2)));
    assert!(!region.contains(&(1, 1)));
    // From a hole nothing is reached.
    assert_eq!(board_utils::get_all_adjacent(Point::new(1, 1), &b).len(), 0);
    // Off the board neither.
    assert_eq!(board_utils::get_all_adjacent(Point::new(9, 9), &b).len(), 0);
    // A wall parts the board in two.
    b.erase(2, 0);
    b.erase(2, 1);
    b.erase(2, 2);
    assert_eq!(board_utils::get_all_adjacent(Point::new(0, 0), &b).len(), 4);
    assert_eq!(board_utils::get_all_adjacent(Point::new(3, 2), &b).len(), 1);
}

#[test]
fn adjacent_cells_of_a_cell_off_the_board() {
    let b = Board::new(2, 2);
    let adj = board_utils::get_adjacent(Point::new(2, 1), &b);
    assert_eq!(adj.len(), 1);
    assert!(adj.contains(&(1, 1)));
    assert_eq!(board_utils::get_adjacent(Point::new(usize::MAX, usize::MAX), &b).len(), 0);
}

#[test]
fn rep_of_each_state() {
    let w = build_w();
    assert_eq!(BoardState::Void.rep(), " ");
    assert_eq!(BoardState::Empty.rep(), ".");
    assert_eq!(BoardState::Full(&w, 0, 0).rep(), " ");
}

#[test]
fn connected_cells() {
    let w = build_w();
    let w_again = build_w();
    let l = build_l();
    assert!(BoardState::Void.connected_to(BoardState::Void));
    assert!(BoardState::Empty.connected_to(BoardState::Empty));
    assert!(!BoardState::Void.connected_to(BoardState::Empty));
    assert!(!BoardState::Empty.connected_to(BoardState::Full(&w, 0, 0)));
    assert!(BoardState::Full(&w, 1, 2).connected_to(BoardState::Full(&w, 1, 2)));
    assert!(BoardState::Full(&w, 1, 2).connected_to(BoardState::Full(&w_again, 1, 2)));
    assert!(!BoardState::Full(&w, 1, 2).connected_to(BoardState::Full(&w, 2, 1)));
    assert!(!BoardState::Full(&w, 1, 2).connected_to(BoardState::Full(&l, 1, 2)));
    assert!(!BoardState::Full(&w, 1, 2).connected_to(BoardState::Void));
}

#[test]
fn drawing_of_a_board() {
    let b = Board::new(1, 1);
    assert_eq!(b.render(), "+-+\n|.|\n+-+\n");

    let lying = Polyomino::new(vec![Point::new(0, 0), Point::new(1, 0)]);
    let mut b = Board::new(2, 1);
    assert!(b.add_polyomino(&lying, Point::new(0, 0)));
    assert_eq!(b.render(), "+-+-+\n|   |\n+-+-+\n");

    // A hole at the top left, an upright piece at the right.
    let upright = Polyomino::new(vec![Point::new(0, 0), Point::new(0, 1)]);
    let mut b = Board::new(2, 2);
    b.erase(0, 0);
    assert!(b.add_polyomino(&upright, Point::new(1, 0)));
    assert_eq!(b.render(), "  +-+\n  | |\n -+ +\n|.| |\n+-+-+\n");

    let b = Board::new(0, 0);
    assert_eq!(b.render(), " \n");
}

#[test]
fn board_from_lines() {
    let lines = vec!["XX X".to_string(), "X".to_string(), "".to_string()];
    let b = Board::from_lines(&lines);
    assert_eq!(b.get_width(), 4);
    assert_eq!(b.get_height(), 3);
    let expected = [
        [BoardState::Empty, BoardState::Empty, BoardState::Void, BoardState::Empty],
        [BoardState::Empty, BoardState::Void, BoardState::Void, BoardState::Void],
        [BoardState::Void, BoardState::Void, BoardState::Void, BoardState::Void],
    ];
    for y in 0..3 {
        for x in 0..4 {
            assert_eq!(b.get(x, y), expected[y][x]);
        }
    }
    let none = Board::from_lines(&Vec::new());
    assert_eq!(none.get_width(), 0);
    assert_eq!(none.get_height(), 0);
}

#[test]
fn board_with_holes_from_lines() {
    let lines: Vec<String> = vec![
        "XXXXXXXX", "XXXXXXXX", "XX  XX  ", "XX  XX", "XXXXXXXX", "XX X XXX", "XXXXXXXX", "XXXXXXXX",
    ]
    .into_iter()
    .map(|line| line.to_string())
    .collect();
    let b = Board::from_lines(&lines);
    assert_eq!(b.get(0, 0), BoardState::Empty);
    assert_eq!(b.get(0, 7), BoardState::Empty);
    assert_eq!(b.get(7, 0), BoardState::Empty);
    assert_eq!(b.get(7, 7), BoardState::Empty);
    assert_eq!(b.get(2, 2), BoardState::Void);
    assert_eq!(b.get(7, 2), BoardState::Void);
    assert_eq!(b.get(7, 3), BoardState::Void);
    assert_eq!(b.get(2, 5), BoardState::Void);
    assert_eq!(b.get(4, 5), BoardState::Void);
    assert_eq!(b.get(3, 5), BoardState::Empty);
}
