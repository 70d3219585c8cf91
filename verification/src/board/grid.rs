//! The mathematical model of a board: a grid of cells, column by column.

use crate::point::Point;
use crate::text::joined;
use vstd::prelude::*;
use vstd::utf8::encode_utf8;

verus! {

/// What one cell holds: nothing playable, nothing yet, or one cell of a
/// shape that was placed with its origin at the given point.
#[verifier::ext_equal]
pub enum Cell {
    Void,
    Empty,
    Full(Seq<Point>, Point),
}

impl Cell {
    /// The character that stands for the cell in a drawing of the board.
    pub open spec fn rep(self) -> Seq<char> {
        match self {
            Cell::Void => seq![' '],
            Cell::Empty => seq!['.'],
            Cell::Full(_, _) => seq![' '],
        }
    }
}

/// A grid `width` wide and `height` high. `columns[x][y]` is the cell of
/// column `x` and row `y`.
#[verifier::ext_equal]
pub struct Grid {
    pub width: nat,
    pub height: nat,
    pub columns: Seq<Seq<Cell>>,
}

impl Grid {
    /// There are `width` columns of `height` cells each, and every
    /// coordinate on the board is that of a `Point`.
    pub open spec fn wf(self) -> bool {
        &&& self.width <= usize::MAX
        &&& self.height <= usize::MAX
        &&& self.columns.len() == self.width
        &&& forall|x: int| 0 <= x < self.width ==> (#[trigger] self.columns[x]).len() == self.height
    }

    /// The grid of the given size whose cells are all `Empty`.
    pub open spec fn empty(width: nat, height: nat) -> Grid {
        Grid { width, height, columns: Seq::new(width, |x: int| Seq::new(height, |y: int| Cell::Empty)) }
    }

    pub open spec fn on_board(self, x: int, y: int) -> bool {
        0 <= x < self.width && 0 <= y < self.height
    }

    /// The cell at `(x, y)`; `Void` off the board.
    pub open spec fn at(self, x: int, y: int) -> Cell {
        if self.on_board(x, y) {
            self.columns[x][y]
        } else {
            Cell::Void
        }
    }

    /// The grid with cell `(x, y)` replaced by `c`; the grid itself where
    /// `(x, y)` is off the board.
    pub open spec fn with_cell(self, x: int, y: int, c: Cell) -> Grid {
        Grid {
            width: self.width,
            height: self.height,
            columns: Seq::new(
                self.width,
                |i: int|
                    Seq::new(
                        self.height,
                        |j: int|
                            if i == x && j == y {
                                c
                            } else {
                                self.columns[i][j]
                            },
                    ),
            ),
        }
    }

    /// Whether `shape`, placed with its origin at `origin`, covers `(x, y)`.
    pub open spec fn covers(shape: Seq<Point>, origin: Point, x: int, y: int) -> bool {
        exists|i: int|
            0 <= i < shape.len() && (#[trigger] shape[i]).x + origin.x == x && shape[i].y
                + origin.y == y
    }

    /// The grid with `value` in every cell that `shape` covers from `origin`.
    pub open spec fn stamped(self, shape: Seq<Point>, origin: Point, value: Cell) -> Grid {
        Grid {
            width: self.width,
            height: self.height,
            columns: Seq::new(
                self.width,
                |x: int|
                    Seq::new(
                        self.height,
                        |y: int|
                            if Self::covers(shape, origin, x, y) {
                                value
                            } else {
                                self.columns[x][y]
                            },
                    ),
            ),
        }
    }

    /// Every cell that `shape` would cover from `origin` is `Empty`.
    pub open spec fn fits(self, shape: Seq<Point>, origin: Point) -> bool {
        forall|i: int|
            0 <= i < shape.len() ==> self.at((#[trigger] shape[i]).x + origin.x, shape[i].y + origin.y)
                == Cell::Empty
    }

    /// Every cell that `shape` covers from `origin` is on the board.
    pub open spec fn holds(self, shape: Seq<Point>, origin: Point) -> bool {
        forall|i: int|
            0 <= i < shape.len() ==> self.on_board(
                (#[trigger] shape[i]).x + origin.x,
                shape[i].y + origin.y,
            )
    }

    /// The grid after `shape` was placed at `origin`.
    pub open spec fn placed(self, shape: Seq<Point>, origin: Point) -> Grid {
        self.stamped(shape, origin, Cell::Full(shape, origin))
    }

    /// The grid after the placement of `shape` at `origin` was lifted.
    pub open spec fn lifted(self, shape: Seq<Point>, origin: Point) -> Grid {
        self.stamped(shape, origin, Cell::Empty)
    }

    /// The grid after the piece that covers `(x, y)` was lifted; the grid
    /// itself where no piece covers `(x, y)`.
    pub open spec fn removed(self, x: int, y: int) -> Grid {
        match self.at(x, y) {
            Cell::Full(shape, origin) => self.lifted(shape, origin),
            _ => self,
        }
    }

    /// Every placement that a cell records lies on the board.
    pub open spec fn placements_on_board(self) -> bool {
        forall|x: int, y: int|
            self.on_board(x, y) ==> match #[trigger] self.columns[x][y] {
                Cell::Full(shape, origin) => self.holds(shape, origin),
                _ => true,
            }
    }

    /// Every covered cell is one of the cells of the placement that it
    /// records, and all the cells of that placement record it.
    pub open spec fn consistent(self) -> bool {
        forall|x: int, y: int|
            self.on_board(x, y) ==> match #[trigger] self.columns[x][y] {
                Cell::Full(shape, origin) => {
                    &&& Self::covers(shape, origin, x, y)
                    &&& forall|i: int|
                        0 <= i < shape.len() ==> self.at(
                            (#[trigger] shape[i]).x + origin.x,
                            shape[i].y + origin.y,
                        ) == Cell::Full(shape, origin)
                },
                _ => true,
            }
    }

    /// No cell of the board is `Empty`.
    pub open spec fn is_covered(self) -> bool {
        forall|x: int, y: int| self.on_board(x, y) ==> #[trigger] self.columns[x][y] != Cell::Empty
    }

    /// `p` is `Empty`, and no cell before it is: none in a column to its
    /// left, and none below it in its own column.
    pub open spec fn is_first_unoccupied(self, p: Point) -> bool {
        &&& self.at(p.x as int, p.y as int) == Cell::Empty
        &&& forall|x: int, y: int|
            self.on_board(x, y) && (x < p.x || (x == p.x && y < p.y))
                ==> #[trigger] self.columns[x][y] != Cell::Empty
    }

    /// The first `Empty` cell in the order of points, if there is one.
    pub open spec fn first_unoccupied(self) -> Option<Point> {
        if exists|p: Point| self.is_first_unoccupied(p) {
            Some(choose|p: Point| self.is_first_unoccupied(p))
        } else {
            None
        }
    }

    /// The origin at which `shape` has its first point on `target`, if the
    /// shape has a point and the origin is not below or left of the board's.
    pub open spec fn anchor_origin(shape: Seq<Point>, target: Point) -> Option<Point> {
        if shape.len() > 0 && shape[0].x <= target.x && shape[0].y <= target.y {
            Some(Point { x: (target.x - shape[0].x) as usize, y: (target.y - shape[0].y) as usize })
        } else {
            None
        }
    }

    /// The origin at which `shape` fits with its first point on `target`, if
    /// it does fit there.
    pub open spec fn fit_origin(self, shape: Seq<Point>, target: Point) -> Option<Point> {
        match Self::anchor_origin(shape, target) {
            Some(origin) => if self.fits(shape, origin) {
                Some(origin)
            } else {
                None
            },
            None => None,
        }
    }

    /// `a` and `b` are next to each other in a row or in a column.
    pub open spec fn adjacent(a: Point, b: Point) -> bool {
        ||| a.x == b.x && a.y + 1 == b.y
        ||| a.x == b.x && b.y + 1 == a.y
        ||| a.y == b.y && a.x + 1 == b.x
        ||| a.y == b.y && b.x + 1 == a.x
    }

    /// The `Empty` cells next to `p`.
    pub open spec fn open_neighbours(self, p: Point) -> Set<(usize, usize)> {
        Set::new(
            |c: (usize, usize)|
                Self::adjacent(p, Point { x: c.0, y: c.1 }) && self.at(c.0 as int, c.1 as int)
                    == Cell::Empty,
        )
    }

    /// `path` walks over `Empty` cells only, each step to a cell next to the
    /// one before.
    pub open spec fn is_open_path(self, path: Seq<Point>) -> bool {
        &&& path.len() > 0
        &&& forall|i: int|
            0 <= i < path.len() ==> self.at((#[trigger] path[i]).x as int, path[i].y as int)
                == Cell::Empty
        &&& forall|i: int|
            0 <= i < path.len() - 1 ==> Self::adjacent(#[trigger] path[i], path[i + 1])
    }

    /// Some walk over `Empty` cells leads from `a` to `b`.
    pub open spec fn connected(self, a: Point, b: Point) -> bool {
        exists|path: Seq<Point>|
            #[trigger] self.is_open_path(path) && path[0] == a && path[path.len() - 1] == b
    }

    /// The `Empty` cells that a walk over `Empty` cells reaches from `p`;
    /// none where `p` itself is not `Empty`.
    pub open spec fn region(self, p: Point) -> Set<(usize, usize)> {
        Set::new(|c: (usize, usize)| self.connected(p, Point { x: c.0, y: c.1 }))
    }

    /// Two cells cannot both be the first `Empty` one.
    pub proof fn lemma_first_unoccupied_unique(self, p: Point, q: Point)
        requires
            self.is_first_unoccupied(p),
            self.is_first_unoccupied(q),
        ensures
            p == q,
    {
        if p.precedes(q) {
            assert(self.columns[p.x as int][p.y as int] != Cell::Empty);
        }
        if q.precedes(p) {
            assert(self.columns[q.x as int][q.y as int] != Cell::Empty);
        }
    }

    /// `first_unoccupied` is the first `Empty` cell, and `None` exactly on a
    /// board without one.
    pub proof fn lemma_first_unoccupied(self)
        requires
            self.wf(),
        ensures
            match self.first_unoccupied() {
                Some(p) => self.is_first_unoccupied(p),
                None => self.is_covered(),
            },
        decreases 0int,
    {
        if self.first_unoccupied() is None && !self.is_covered() {
            let (x0, y0) = choose|x: int, y: int|
                self.on_board(x, y) && #[trigger] self.columns[x][y] == Cell::Empty;
            let p = self.lemma_least_empty(x0, y0, 0, 0);
            assert(self.is_first_unoccupied(p));
        }
    }

    /// Among the cells from `(x, y)` on there is an `Empty` one, `(x0, y0)`
    /// say; the first of them is returned, given that none comes before
    /// `(x, y)`.
    proof fn lemma_least_empty(self, x0: int, y0: int, x: int, y: int) -> (p: Point)
        requires
            self.wf(),
            self.on_board(x0, y0),
            self.columns[x0][y0] == Cell::Empty,
            0 <= x <= x0,
            0 <= y <= self.height,
            x == x0 ==> y <= y0,
            forall|i: int, j: int|
                self.on_board(i, j) && (i < x || (i == x && j < y))
                    ==> #[trigger] self.columns[i][j] != Cell::Empty,
        ensures
            self.is_first_unoccupied(p),
        decreases x0 - x, self.height - y,
    {
        if y == self.height {
            self.lemma_least_empty(x0, y0, x + 1, 0)
        } else if self.columns[x][y] == Cell::Empty {
            Point { x: x as usize, y: y as usize }
        } else {
            self.lemma_least_empty(x0, y0, x, y + 1)
        }
    }

    /// A walk that ends next to an `Empty` cell goes on to that cell.
    pub proof fn lemma_connected_step(self, a: Point, b: Point, c: Point)
        requires
            self.connected(a, b),
            Self::adjacent(b, c),
            self.at(c.x as int, c.y as int) == Cell::Empty,
        ensures
            self.connected(a, c),
    {
        let path = choose|path: Seq<Point>|
            #[trigger] self.is_open_path(path) && path[0] == a && path[path.len() - 1] == b;
        let longer = path.push(c);
        assert forall|i: int| 0 <= i < longer.len() - 1 implies Self::adjacent(
            #[trigger] longer[i],
            longer[i + 1],
        ) by {
            if i < path.len() - 1 {
                assert(Self::adjacent(path[i], path[i + 1]));
            }
        }
        assert(self.is_open_path(longer));
    }

    /// An `Empty` cell is connected to itself.
    pub proof fn lemma_connected_self(self, a: Point)
        requires
            self.at(a.x as int, a.y as int) == Cell::Empty,
        ensures
            self.connected(a, a),
    {
        assert(self.is_open_path(seq![a]));
    }

    /// A set that holds `p` and, with each cell, the `Empty` cells next to
    /// it, holds the whole region of `p`.
    pub proof fn lemma_region_within(self, p: Point, closed: Set<(usize, usize)>)
        requires
            closed.contains((p.x, p.y)),
            forall|c: (usize, usize), d: (usize, usize)|
                closed.contains(c) && #[trigger] self.open_neighbours(Point { x: c.0, y: c.1 }).contains(d)
                    ==> closed.contains(d),
        ensures
            self.region(p).subset_of(closed),
    {
        assert forall|c: (usize, usize)| self.region(p).contains(c) implies closed.contains(c) by {
            let path = choose|path: Seq<Point>|
                #[trigger] self.is_open_path(path) && path[0] == p && path[path.len() - 1] == (Point {
                    x: c.0,
                    y: c.1,
                });
            self.lemma_path_within(path, closed, path.len() - 1);
        }
    }

    proof fn lemma_path_within(self, path: Seq<Point>, closed: Set<(usize, usize)>, k: int)
        requires
            self.is_open_path(path),
            0 <= k < path.len(),
            closed.contains((path[0].x, path[0].y)),
            forall|c: (usize, usize), d: (usize, usize)|
                closed.contains(c) && #[trigger] self.open_neighbours(Point { x: c.0, y: c.1 }).contains(d)
                    ==> closed.contains(d),
        ensures
            closed.contains((path[k].x, path[k].y)),
        decreases k,
    {
        if k > 0 {
            self.lemma_path_within(path, closed, k - 1);
            let c = (path[k - 1].x, path[k - 1].y);
            let d = (path[k].x, path[k].y);
            assert(Self::adjacent(path[k - 1], path[k - 1 + 1]));
            assert(self.at(path[k].x as int, path[k].y as int) == Cell::Empty);
            assert(self.open_neighbours(Point { x: c.0, y: c.1 }).contains(d));
        }
    }

    /// How many of the first `upto` cells of column `x` are `Empty` and not
    /// in `seen`.
    pub open spec fn unseen_in_column(self, seen: Set<(usize, usize)>, x: int, upto: int) -> nat
        decreases upto,
    {
        if upto <= 0 {
            0
        } else if self.columns[x][upto - 1] == Cell::Empty && !seen.contains(
            (x as usize, (upto - 1) as usize),
        ) {
            self.unseen_in_column(seen, x, upto - 1) + 1
        } else {
            self.unseen_in_column(seen, x, upto - 1)
        }
    }

    /// How many cells of the first `upto` columns are `Empty` and not in
    /// `seen`.
    pub open spec fn unseen(self, seen: Set<(usize, usize)>, upto: int) -> nat
        decreases upto,
    {
        if upto <= 0 {
            0
        } else {
            self.unseen(seen, upto - 1) + self.unseen_in_column(
                seen,
                upto - 1,
                self.height as int,
            )
        }
    }

    proof fn lemma_unseen_in_column_insert(
        self,
        seen: Set<(usize, usize)>,
        c: (usize, usize),
        x: int,
        upto: int,
    )
        requires
            self.wf(),
            0 <= x < self.width,
            0 <= upto <= self.height,
            self.at(c.0 as int, c.1 as int) == Cell::Empty,
            !seen.contains(c),
        ensures
            self.unseen_in_column(seen, x, upto) == self.unseen_in_column(seen.insert(c), x, upto)
                + if x == c.0 && c.1 < upto {
                1nat
            } else {
                0nat
            },
        decreases upto,
    {
        if upto > 0 {
            self.lemma_unseen_in_column_insert(seen, c, x, upto - 1);
        }
    }

    /// One `Empty` cell more in `seen` is one cell less that is not.
    pub proof fn lemma_unseen_insert(self, seen: Set<(usize, usize)>, c: (usize, usize), upto: int)
        requires
            self.wf(),
            0 <= upto <= self.width,
            self.at(c.0 as int, c.1 as int) == Cell::Empty,
            !seen.contains(c),
        ensures
            self.unseen(seen, upto) == self.unseen(seen.insert(c), upto) + if c.0 < upto {
                1nat
            } else {
                0nat
            },
        decreases upto,
    {
        if upto > 0 {
            self.lemma_unseen_insert(seen, c, upto - 1);
            self.lemma_unseen_in_column_insert(seen, c, upto - 1, self.height as int);
        }
    }

    /// Lifting a piece by any of its cells, right after it was placed, gives
    /// back the grid as it was before.
    pub proof fn lemma_place_remove(self, shape: Seq<Point>, origin: Point, x: int, y: int)
        requires
            self.wf(),
            self.fits(shape, origin),
            Self::covers(shape, origin, x, y),
        ensures
            self.placed(shape, origin).removed(x, y) == self,
    {
        let placed = self.placed(shape, origin);
        let i = choose|i: int|
            0 <= i < shape.len() && (#[trigger] shape[i]).x + origin.x == x && shape[i].y
                + origin.y == y;
        assert(self.at(shape[i].x + origin.x, shape[i].y + origin.y) == Cell::Empty);
        assert(placed.at(x, y) == Cell::Full(shape, origin));
        let back = placed.lifted(shape, origin);
        assert forall|a: int, b: int| self.on_board(a, b) implies #[trigger] back.columns[a][b]
            == self.columns[a][b] by {
            if Self::covers(shape, origin, a, b) {
                let j = choose|j: int|
                    0 <= j < shape.len() && (#[trigger] shape[j]).x + origin.x == a && shape[j].y
                        + origin.y == b;
                assert(self.at(shape[j].x + origin.x, shape[j].y + origin.y) == Cell::Empty);
            }
        }
        assert(back =~~= self);
    }

    /// Placing a shape that fits keeps a grid consistent.
    pub proof fn lemma_placed_consistent(self, shape: Seq<Point>, origin: Point)
        requires
            self.wf(),
            self.consistent(),
            self.fits(shape, origin),
        ensures
            self.placed(shape, origin).consistent(),
    {
        let g = self.placed(shape, origin);
        assert forall|x: int, y: int| g.on_board(x, y) implies match #[trigger] g.columns[x][y] {
            Cell::Full(s, o) => {
                &&& Self::covers(s, o, x, y)
                &&& forall|i: int|
                    0 <= i < s.len() ==> g.at((#[trigger] s[i]).x + o.x, s[i].y + o.y)
                        == Cell::Full(s, o)
            },
            _ => true,
        } by {
            if let Cell::Full(s, o) = g.columns[x][y] {
                if Self::covers(shape, origin, x, y) {
                    assert forall|i: int| 0 <= i < s.len() implies g.at(
                        (#[trigger] s[i]).x + o.x,
                        s[i].y + o.y,
                    ) == Cell::Full(s, o) by {
                        assert(self.at(shape[i].x + origin.x, shape[i].y + origin.y)
                            == Cell::Empty);
                    }
                } else {
                    assert(self.columns[x][y] == Cell::Full(s, o));
                    assert forall|i: int| 0 <= i < s.len() implies g.at(
                        (#[trigger] s[i]).x + o.x,
                        s[i].y + o.y,
                    ) == Cell::Full(s, o) by {
                        let a = s[i].x + o.x;
                        let b = s[i].y + o.y;
                        assert(self.at(a, b) == Cell::Full(s, o));
                        if Self::covers(shape, origin, a, b) {
                            let j = choose|j: int|
                                0 <= j < shape.len() && (#[trigger] shape[j]).x + origin.x == a
                                    && shape[j].y + origin.y == b;
                            assert(self.at(shape[j].x + origin.x, shape[j].y + origin.y)
                                == Cell::Empty);
                        }
                    }
                }
            }
        }
    }

    /// Lifting a piece keeps a grid consistent.
    pub proof fn lemma_removed_consistent(self, x: int, y: int)
        requires
            self.wf(),
            self.consistent(),
        ensures
            self.removed(x, y).consistent(),
    {
        if let Cell::Full(shape, origin) = self.at(x, y) {
            let g = self.lifted(shape, origin);
            assert(self.columns[x][y] == Cell::Full(shape, origin));
            assert forall|a: int, b: int| g.on_board(a, b) implies match #[trigger] g.columns[a][b] {
                Cell::Full(s, o) => {
                    &&& Self::covers(s, o, a, b)
                    &&& forall|i: int|
                        0 <= i < s.len() ==> g.at((#[trigger] s[i]).x + o.x, s[i].y + o.y)
                            == Cell::Full(s, o)
                },
                _ => true,
            } by {
                if let Cell::Full(s, o) = g.columns[a][b] {
                    assert(!Self::covers(shape, origin, a, b));
                    assert(self.columns[a][b] == Cell::Full(s, o));
                    assert forall|i: int| 0 <= i < s.len() implies g.at(
                        (#[trigger] s[i]).x + o.x,
                        s[i].y + o.y,
                    ) == Cell::Full(s, o) by {
                        let c = s[i].x + o.x;
                        let d = s[i].y + o.y;
                        assert(self.at(c, d) == Cell::Full(s, o));
                        if Self::covers(shape, origin, c, d) {
                            let j = choose|j: int|
                                0 <= j < shape.len() && (#[trigger] shape[j]).x + origin.x == c
                                    && shape[j].y + origin.y == d;
                            assert(self.at(shape[j].x + origin.x, shape[j].y + origin.y)
                                == Cell::Full(shape, origin));
                        }
                    }
                }
            }
        }
    }

    /// Making a hole of a cell that no piece covers keeps a grid consistent.
    pub proof fn lemma_erased_consistent(self, x: int, y: int)
        requires
            self.wf(),
            self.consistent(),
            !(self.at(x, y) is Full),
        ensures
            self.with_cell(x, y, Cell::Void).consistent(),
    {
        let g = self.with_cell(x, y, Cell::Void);
        assert forall|a: int, b: int| g.on_board(a, b) implies match #[trigger] g.columns[a][b] {
            Cell::Full(s, o) => {
                &&& Self::covers(s, o, a, b)
                &&& forall|i: int|
                    0 <= i < s.len() ==> g.at((#[trigger] s[i]).x + o.x, s[i].y + o.y)
                        == Cell::Full(s, o)
            },
            _ => true,
        } by {
            if let Cell::Full(s, o) = g.columns[a][b] {
                assert(self.columns[a][b] == Cell::Full(s, o));
                assert forall|i: int| 0 <= i < s.len() implies g.at(
                    (#[trigger] s[i]).x + o.x,
                    s[i].y + o.y,
                ) == Cell::Full(s, o) by {
                    assert(self.at(s[i].x + o.x, s[i].y + o.y) == Cell::Full(s, o));
                }
            }
        }
    }

    /// Lifting a piece by its origin, right after it was placed, gives back
    /// the grid as it was before, if the origin is a cell of the piece.
    pub proof fn lemma_place_remove_at_origin(self, shape: Seq<Point>, origin: Point)
        requires
            self.wf(),
            self.fits(shape, origin),
            shape.contains(Point { x: 0, y: 0 }),
        ensures
            self.placed(shape, origin).removed(origin.x as int, origin.y as int) == self,
            forall|i: int|
                0 <= i < shape.len() ==> self.placed(shape, origin).removed(
                    origin.x as int,
                    origin.y as int,
                ).at((#[trigger] shape[i]).x + origin.x, shape[i].y + origin.y) == Cell::Empty,
    {
        let i = choose|i: int| 0 <= i < shape.len() && shape[i] == Point { x: 0, y: 0 };
        assert(shape[i].x + origin.x == origin.x && shape[i].y + origin.y == origin.y);
        self.lemma_place_remove(shape, origin, origin.x as int, origin.y as int);
    }

    /// What the character at place `x` of line `y` of a drawing of a board
    /// makes of cell `(x, y)`: a hole where there is no character or a
    /// space, an empty cell otherwise.
    pub open spec fn read_cell(lines: Seq<Seq<char>>, x: int, y: int) -> Cell {
        if 0 <= x < lines[y].len() && lines[y][x] != ' ' {
            Cell::Empty
        } else {
            Cell::Void
        }
    }

    /// The length in bytes of the longest of the first `k` lines.
    pub open spec fn widest(lines: Seq<Seq<char>>, k: int) -> nat
        decreases k,
    {
        if k <= 0 {
            0
        } else if encode_utf8(lines[k - 1]).len() > Self::widest(lines, k - 1) {
            encode_utf8(lines[k - 1]).len()
        } else {
            Self::widest(lines, k - 1)
        }
    }

    /// The grid that the lines of a drawing describe: one row for each line,
    /// as wide as the longest line is long.
    pub open spec fn of_lines(lines: Seq<Seq<char>>) -> Grid {
        Grid {
            width: Self::widest(lines, lines.len() as int),
            height: lines.len(),
            columns: Seq::new(
                Self::widest(lines, lines.len() as int),
                |x: int| Seq::new(lines.len(), |y: int| Self::read_cell(lines, x, y)),
            ),
        }
    }

    /// The corner at the left end of the border below row `y`.
    pub open spec fn corner(self, y: int) -> Seq<char> {
        if self.at(0, y) == Cell::Void {
            seq![' ']
        } else {
            seq!['+']
        }
    }

    /// The border above cell `(x, 0)`, with the corner at its right end.
    pub open spec fn top_edge(self, x: int) -> Seq<char> {
        if self.at(x, 0) == Cell::Void {
            if self.at(x + 1, 0) == Cell::Void {
                seq![' ', ' ']
            } else {
                seq![' ', '+']
            }
        } else {
            seq!['-', '+']
        }
    }

    /// The border above the first row.
    pub open spec fn top_border(self) -> Seq<char> {
        self.corner(0) + joined(|x: int| self.top_edge(x), self.width as int) + seq!['\n']
    }

    /// Cell `(x, y)` and the border at its right, which is open where the
    /// cell to the right holds the same; the first cell of a row with the
    /// border at its left too.
    pub open spec fn row_cell(self, x: int, y: int) -> Seq<char> {
        let left: Seq<char> = if x != 0 {
            Seq::empty()
        } else if self.at(x, y) == Cell::Void {
            seq![' ']
        } else {
            seq!['|']
        };
        let right: Seq<char> = if self.at(x, y) == self.at(x + 1, y) {
            seq![' ']
        } else {
            seq!['|']
        };
        left + self.at(x, y).rep() + right
    }

    /// Row `y`.
    pub open spec fn row(self, y: int) -> Seq<char> {
        joined(|x: int| self.row_cell(x, y), self.width as int) + seq!['\n']
    }

    /// The border below cell `(x, y)`, which is open where the cell below
    /// holds the same, with the corner at its right end, which is open
    /// where all four cells round it hold the same two by two.
    pub open spec fn bottom_edge(self, x: int, y: int) -> Seq<char> {
        if self.at(x, y) == self.at(x, y + 1) {
            if self.at(x, y) == self.at(x + 1, y) && self.at(x, y + 1) == self.at(x + 1, y + 1) {
                seq![' ', ' ']
            } else {
                seq![' ', '+']
            }
        } else {
            seq!['-', '+']
        }
    }

    /// The border below row `y`.
    pub open spec fn bottom_border(self, y: int) -> Seq<char> {
        self.corner(y) + joined(|x: int| self.bottom_edge(x, y), self.width as int) + seq!['\n']
    }

    /// The drawing of the grid: the border above the first row, then every
    /// row with the border below it. Two cells hold the same when both are
    /// holes, both are empty, or both are cells of one placement.
    pub open spec fn drawing(self) -> Seq<char> {
        self.top_border() + joined(
            |y: int| self.row(y) + self.bottom_border(y),
            self.height as int,
        )
    }

    /// Replacing a cell keeps every placement on the board, if the new cell
    /// records one that is.
    pub proof fn lemma_with_cell_on_board(self, x: int, y: int, c: Cell)
        requires
            self.wf(),
            self.placements_on_board(),
            c matches Cell::Full(s, o) ==> self.holds(s, o),
        ensures
            self.with_cell(x, y, c).wf(),
            self.with_cell(x, y, c).placements_on_board(),
    {
        let g = self.with_cell(x, y, c);
        assert forall|i: int, j: int| g.on_board(i, j) implies match #[trigger] g.columns[i][j] {
            Cell::Full(shape, origin) => g.holds(shape, origin),
            _ => true,
        } by {
            if !(i == x && j == y) {
                assert(g.columns[i][j] == self.columns[i][j]);
            }
        }
    }

    /// Stamping one point more is replacing one cell more.
    pub proof fn lemma_stamped_step(self, shape: Seq<Point>, k: int, origin: Point, value: Cell)
        requires
            self.wf(),
            0 <= k < shape.len(),
        ensures
            self.stamped(shape.take(k), origin, value).with_cell(
                shape[k].x + origin.x,
                shape[k].y + origin.y,
                value,
            ) == self.stamped(shape.take(k + 1), origin, value),
    {
        let a = self.stamped(shape.take(k), origin, value).with_cell(
            shape[k].x + origin.x,
            shape[k].y + origin.y,
            value,
        );
        let b = self.stamped(shape.take(k + 1), origin, value);
        assert forall|x: int, y: int| self.on_board(x, y) implies #[trigger] a.columns[x][y]
            == b.columns[x][y] by {
            let more = shape.take(k + 1);
            let fewer = shape.take(k);
            if Self::covers(fewer, origin, x, y) {
                let i = choose|i: int|
                    0 <= i < fewer.len() && (#[trigger] fewer[i]).x + origin.x == x && fewer[i].y
                        + origin.y == y;
                assert(more[i] == fewer[i]);
            }
            if x == shape[k].x + origin.x && y == shape[k].y + origin.y {
                assert(more[k] == shape[k]);
            }
            if Self::covers(more, origin, x, y) {
                let i = choose|i: int|
                    0 <= i < more.len() && (#[trigger] more[i]).x + origin.x == x && more[i].y
                        + origin.y == y;
                if i < k {
                    assert(fewer[i] == more[i]);
                }
            }
        }
        assert(a =~~= b);
    }
}

} // verus!
