use polyomino::board::Board;
use polyomino::board::BoardState;
use polyomino::point::Point;
use polyomino::polyomino::Polyomino;
use polyomino::solver::AnyRegion;
use polyomino::solver::PrintSolutions;
use polyomino::solver::RegionChecker;
use polyomino::solver::RegionMultipleOf;
use polyomino::solver::SolutionCallback;
use polyomino::solver::Solver;
use polyomino::solver::SolverError;
use polyomino::utils::build_pentominoes;
use polyomino::utils::build_tetrominoes;
use polyomino::utils::build_variations;
use polyomino::utils::Restrictions;

fn shape(points: &[(usize, usize)]) -> Polyomino {
    Polyomino::new(points.iter().map(|&(x, y)| Point::new(x, y)).collect())
}

struct Tally {
    calls: u32,
    covered: bool,
}

impl Tally {
    fn new() -> Tally {
        Tally { calls: 0, covered: true }
    }
}

impl SolutionCallback for Tally {
    fn notify(&mut self, board: &Board) {
        self.calls += 1;
        for x in 0..board.get_width() {
            for y in 0..board.get_height() {
                if board.get(x, y) == BoardState::Empty {
                    self.covered = false;
                }
            }
        }
    }
}

#[test]
fn two_dominoes_on_a_square() {
    let domino = shape(&[(0, 0), (0, 1)]);
    let groups = vec![domino.make_all_variations(), domino.make_all_variations()];
    let mut b = Board::new(2, 2);
    let mut tally = Tally::new();
    let rule = RegionMultipleOf { unit: 2 };
    {
        let mut solver = Solver::new(&mut b, &groups)
            .set_region_checker(&rule)
            .set_callback_function(&mut tally);
        // Upright or lying, and either domino first.
        assert_eq!(solver.count_solutions(), Ok(4));
        assert_eq!(solver.solutions().len(), 0);
    }
    assert_eq!(tally.calls, 4);
    assert!(tally.covered);
    let mut solver = Solver::new(&mut b, &groups).set_callback_function(&mut tally);
    assert_eq!(solver.solve().map(|boards| boards.len()), Ok(4));
    assert_eq!(solver.solutions().len(), 4);
    for solved in solver.solutions() {
        for x in 0..2 {
            for y in 0..2 {
                assert!(solved.get(x, y) != BoardState::Empty);
                assert!(solved.get(x, y) != BoardState::Void);
            }
        }
    }
    // The first solution has the first shape of the first group at the
    // first cell.
    assert_eq!(solver.solutions()[0].get(0, 0), BoardState::Full(&groups[0][0], 0, 0));
    // A second search starts from nothing.
    assert_eq!(solver.solve().map(|boards| boards.len()), Ok(4));
    assert_eq!(solver.solutions().len(), 4);
    assert_eq!(solver.board().get(0, 0), BoardState::Empty);
    drop(solver);
    assert_eq!(tally.calls, 12);
}

#[test]
fn the_board_is_left_as_it_was() {
    let domino = shape(&[(0, 0), (0, 1)]);
    let groups = vec![domino.make_all_variations(), domino.make_all_variations()];
    let mut b = Board::new(2, 2);
    {
        let mut solver = Solver::new(&mut b, &groups);
        assert_eq!(solver.count_solutions(), Ok(4));
    }
    for x in 0..2 {
        for y in 0..2 {
            assert_eq!(b.get(x, y), BoardState::Empty);
        }
    }
}

#[test]
fn no_group_is_one_solution() {
    let groups: Vec<Vec<Polyomino>> = Vec::new();
    let mut b = Board::new(3, 3);
    let mut solver = Solver::new(&mut b, &groups);
    assert_eq!(solver.count_solutions(), Ok(1));
}

#[test]
fn a_shape_that_fits_nowhere_gives_no_solution() {
    let long = shape(&[(0, 0), (1, 0), (2, 0), (3, 0)]);
    let groups = vec![vec![long]];
    let mut b = Board::new(3, 3);
    let mut solver = Solver::new(&mut b, &groups);
    assert_eq!(solver.count_solutions(), Ok(0));
}

#[test]
fn an_empty_group_gives_no_solution() {
    let mono = shape(&[(0, 0)]);
    let groups = vec![vec![mono], Vec::new()];
    let mut b = Board::new(2, 1);
    let mut solver = Solver::new(&mut b, &groups);
    assert_eq!(solver.count_solutions(), Ok(0));
}

#[test]
fn pieces_left_over() {
    let mono = shape(&[(0, 0)]);
    let groups = vec![vec![mono.clone()], vec![mono.clone()]];
    let mut b = Board::new(1, 1);
    let mut solver = Solver::new(&mut b, &groups);
    assert_eq!(solver.count_solutions(), Err(SolverError::PiecesLeftOver));
}

#[test]
fn sixty_cells_of_shapes_on_fifty_nine_cells_of_board() {
    // Twelve shapes of five cells on a board of sixty cells with one hole:
    // the shapes that fill the 59 cells leave a group over.
    let mono = shape(&[(0, 0)]);
    let mut groups: Vec<Vec<Polyomino>> = Vec::new();
    for _ in 0..60 {
        groups.push(vec![mono.clone()]);
    }
    let mut b = Board::new(10, 6);
    b.erase(9, 5);
    let mut tally = Tally::new();
    {
        let mut solver = Solver::new(&mut b, &groups).set_callback_function(&mut tally);
        assert_eq!(solver.count_solutions(), Err(SolverError::PiecesLeftOver));
    }
    assert_eq!(tally.calls, 0);
}

#[test]
fn a_rule_prunes_the_search() {
    // Two cells in a region of three: the rule of two turns the board down
    // at once, where the plain search finds the two ways.
    let domino = shape(&[(0, 0), (0, 1)]);
    let groups = vec![vec![domino.clone()]];
    let mut b = Board::new(1, 3);
    {
        let mut solver = Solver::new(&mut b, &groups);
        assert_eq!(solver.count_solutions(), Ok(1));
    }
    {
        let rule = RegionMultipleOf { unit: 2 };
        let mut solver = Solver::new(&mut b, &groups).set_region_checker(&rule);
        assert_eq!(solver.count_solutions(), Ok(0));
    }
    {
        let rule = RegionMultipleOf { unit: 3 };
        let mut solver = Solver::new(&mut b, &groups).set_region_checker(&rule);
        assert_eq!(solver.count_solutions(), Ok(1));
    }
    {
        let rule = AnyRegion;
        let mut solver = Solver::new(&mut b, &groups).set_region_checker(&rule);
        assert_eq!(solver.count_solutions(), Ok(1));
    }
    {
        // No region has a size that is a multiple of nought but the empty one.
        let rule = RegionMultipleOf { unit: 0 };
        let mut solver = Solver::new(&mut b, &groups).set_region_checker(&rule);
        assert_eq!(solver.count_solutions(), Ok(0));
    }
}

#[test]
fn tetrominoes_do_not_tile_a_rectangle() {
    let polys = build_tetrominoes();
    let groups = build_variations(&polys, Restrictions::Unrestricted);
    let mut b = Board::new(5, 4);
    let mut solver = Solver::new(&mut b, &groups);
    assert_eq!(solver.count_solutions(), Ok(0));
}

#[test]
fn pentominoes_on_three_by_twenty() {
    let polys = build_pentominoes();
    let groups = build_variations(&polys, Restrictions::RectangularSymmetry);
    let mut b = Board::new(20, 3);
    let rule = RegionMultipleOf { unit: 5 };
    let mut solver = Solver::new(&mut b, &groups).set_region_checker(&rule);
    assert_eq!(solver.count_solutions(), Ok(2));
}

#[test]
fn pentominoes_on_six_by_ten() {
    let polys = build_pentominoes();
    let groups = build_variations(&polys, Restrictions::RectangularSymmetry);
    let mut b = Board::new(10, 6);
    let mut solver = Solver::new(&mut b, &groups);
    assert_eq!(solver.count_solutions(), Ok(2339));
}

#[test]
fn solve_hands_out_the_solved_boards_in_order() {
    let mono = shape(&[(0, 0)]);
    let bar = shape(&[(0, 0), (0, 1)]);
    let groups = vec![vec![bar.clone()], vec![mono.clone()], vec![mono.clone()]];
    let mut b = Board::new(2, 2);
    let mut solver = Solver::new(&mut b, &groups);
    let boards = solver.solve().unwrap();
    // The bar at the left with the squares either way, then the squares at
    // the left either way with the bar at the right.
    assert_eq!(boards.len(), 4);
    assert_eq!(boards[0].get(0, 0), BoardState::Full(&groups[0][0], 0, 0));
    assert_eq!(boards[0].get(1, 0), BoardState::Full(&groups[1][0], 1, 0));
    assert_eq!(boards[0].get(1, 1), BoardState::Full(&groups[2][0], 1, 1));
    assert_eq!(boards[1].get(1, 0), BoardState::Full(&groups[2][0], 1, 0));
    assert_eq!(boards[1].get(1, 1), BoardState::Full(&groups[1][0], 1, 1));
    assert_eq!(boards[2].get(0, 0), BoardState::Full(&groups[1][0], 0, 0));
    assert_eq!(boards[2].get(0, 1), BoardState::Full(&groups[2][0], 0, 1));
    assert_eq!(boards[2].get(1, 1), BoardState::Full(&groups[0][0], 1, 0));
    assert_eq!(boards[3].get(0, 0), BoardState::Full(&groups[2][0], 0, 0));
}

#[test]
fn solve_reports_pieces_left_over() {
    let mono = shape(&[(0, 0)]);
    let groups = vec![vec![mono.clone()], vec![mono.clone()]];
    let mut b = Board::new(1, 1);
    let mut solver = Solver::new(&mut b, &groups);
    assert!(matches!(solver.solve(), Err(SolverError::PiecesLeftOver)));
}

#[test]
fn fewer_cells_of_shapes_than_of_board() {
    // Every group is placed at the first empty cell: what stays empty at
    // the far end does not count.
    let mono = shape(&[(0, 0)]);
    let groups = vec![vec![mono.clone()]];
    let mut b = Board::new(3, 1);
    let mut solver = Solver::new(&mut b, &groups);
    assert_eq!(solver.count_solutions(), Ok(1));
}

#[test]
fn which_solutions_are_shown() {
    assert!(!PrintSolutions::PrintTotalOnly.should_print(1));
    assert!(PrintSolutions::PrintAll.should_print(1));
    assert!(PrintSolutions::PrintAll.should_print(7));
    assert!(!PrintSolutions::PrintEveryNth(3).should_print(1));
    assert!(PrintSolutions::PrintEveryNth(3).should_print(3));
    assert!(!PrintSolutions::PrintEveryNth(3).should_print(4));
    assert!(PrintSolutions::PrintEveryNth(3).should_print(6));
    assert!(PrintSolutions::PrintEveryNth(1).should_print(5));
}

struct Sizes {
    seen: std::cell::RefCell<Vec<usize>>,
    limit: usize,
}

impl RegionChecker for Sizes {
    fn evaluate(&self, _board: &Board, region_size: usize) -> bool {
        self.seen.borrow_mut().push(region_size);
        region_size >= self.limit
    }
}

#[test]
fn a_rule_is_asked_with_the_size_of_the_region_of_the_target() {
    // Two cells, a wall, three cells.
    let mono = shape(&[(0, 0)]);
    let groups = vec![vec![mono.clone()], vec![mono.clone()], vec![mono.clone()]];
    let mut b = Board::new(6, 1);
    b.erase(2, 0);
    let rule = Sizes { seen: std::cell::RefCell::new(Vec::new()), limit: 0 };
    {
        let mut solver = Solver::new(&mut b, &groups).set_region_checker(&rule);
        assert_eq!(solver.count_solutions(), Ok(6));
    }
    // Asked before each placement, not once all groups are placed: at the
    // root, after one square of three, after two squares of two each.
    let seen = rule.seen.borrow().clone();
    assert_eq!(seen.len(), 1 + 3 + 6);
    assert_eq!(seen[0], 2);
    assert_eq!(seen[1], 1);
    assert_eq!(seen[2], 3);
    assert_eq!(seen[3], 3);
    // A rule that wants three cells turns the board down at the root.
    let strict = Sizes { seen: std::cell::RefCell::new(Vec::new()), limit: 3 };
    {
        let mut solver = Solver::new(&mut b, &groups).set_region_checker(&strict);
        assert_eq!(solver.count_solutions(), Ok(0));
    }
    assert_eq!(strict.seen.borrow().clone(), vec![2]);
}
