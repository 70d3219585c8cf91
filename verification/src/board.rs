//! The board: a grid of cells that shapes are placed on and lifted from.

use crate::point::Point;
use crate::polyomino::Polyomino;
use crate::text::chars_of;
use crate::text::joined;
use crate::text::string_from_chars;
use std::ops::Range;
use vstd::prelude::*;

pub mod board_utils;
pub mod grid;

use grid::Cell;
use grid::Grid;

verus! {

/// What one cell of a board holds.
#[derive(Clone, Copy, PartialEq, Debug)]
pub enum BoardState<'a> {
    /// Outside the board, or a hole in it.
    Void,
    /// Part of the board, with no piece on it.
    Empty,
    /// Covered by the given shape, placed with its origin at the given `x`
    /// and `y`.
    Full(&'a Polyomino, usize, usize),
}

impl<'a> View for BoardState<'a> {
    type V = Cell;

    open spec fn view(&self) -> Cell {
        match *self {
            BoardState::Void => Cell::Void,
            BoardState::Empty => Cell::Empty,
            BoardState::Full(p, x, y) => Cell::Full(p@, Point { x, y }),
        }
    }
}

impl<'a> BoardState<'a> {
    /// The character that stands for the cell in a drawing of the board.
    pub fn rep(&self) -> (r: &'static str)
        ensures
            r@ == self@.rep(),
    {
        proof {
            reveal_strlit(" ");
            reveal_strlit(".");
            assert(" "@ =~= seq![' ']);
            assert("."@ =~= seq!['.']);
        }
        match *self {
            BoardState::Void => " ",
            BoardState::Empty => ".",
            BoardState::Full(_, _, _) => " ",
        }
    }

    /// Whether the two cells hold the same: both are holes, both are empty,
    /// or both are cells of one placement.
    pub fn connected_to(&self, other: BoardState<'a>) -> (same: bool)
        ensures
            same == (self@ == other@),
    {
        match *self {
            BoardState::Void => other.is_void(),
            BoardState::Empty => other.is_empty(),
            BoardState::Full(p, x, y) => match other {
                BoardState::Full(p1, x1, y1) => x == x1 && y == y1 && p.same_as(p1),
                _ => false,
            },
        }
    }

    pub fn is_void(&self) -> (b: bool)
        ensures
            b == (self@ == Cell::Void),
    {
        match *self {
            BoardState::Void => true,
            _ => false,
        }
    }

    pub fn is_empty(&self) -> (b: bool)
        ensures
            b == (self@ == Cell::Empty),
    {
        match *self {
            BoardState::Empty => true,
            _ => false,
        }
    }

    pub fn is_full(&self) -> (b: bool)
        ensures
            b == (self@ is Full),
    {
        match *self {
            BoardState::Full(_, _, _) => true,
            _ => false,
        }
    }
}

/// Cell `(x, y)` of a board `w` wide and `h` high has a place of its own in
/// the flat array of columns.
proof fn lemma_cell_index(x: int, y: int, w: int, h: int)
    requires
        0 <= x < w,
        0 <= y < h,
    ensures
        0 <= x * h + y < w * h,
{
    assert(x * h >= 0) by (nonlinear_arith)
        requires
            x >= 0,
            h >= 0,
    ;
    assert((x + 1) * h <= w * h) by (nonlinear_arith)
        requires
            x + 1 <= w,
            h >= 0,
    ;
    assert((x + 1) * h == x * h + h) by (nonlinear_arith);
}

/// Two cells that share a place in the flat array are one cell.
proof fn lemma_cell_index_injective(x1: int, y1: int, x2: int, y2: int, h: int)
    requires
        0 <= y1 < h,
        0 <= y2 < h,
        x1 * h + y1 == x2 * h + y2,
    ensures
        x1 == x2,
        y1 == y2,
{
    if x1 < x2 {
        assert((x1 + 1) * h <= x2 * h) by (nonlinear_arith)
            requires
                x1 + 1 <= x2,
                h >= 0,
        ;
        assert((x1 + 1) * h == x1 * h + h) by (nonlinear_arith);
    } else if x2 < x1 {
        assert((x2 + 1) * h <= x1 * h) by (nonlinear_arith)
            requires
                x2 + 1 <= x1,
                h >= 0,
        ;
        assert((x2 + 1) * h == x2 * h + h) by (nonlinear_arith);
    }
}

/// A board of fixed size. Cell `(x, y)` is the cell of column `x` and row
/// `y`; every coordinate outside the board reads as `Void`.
pub struct Board<'a> {
    height: usize,
    width: usize,
    board: Vec<BoardState<'a>>,
}

impl<'a> View for Board<'a> {
    type V = Grid;

    closed spec fn view(&self) -> Grid {
        Grid {
            width: self.width as nat,
            height: self.height as nat,
            columns: Seq::new(
                self.width as nat,
                |x: int| Seq::new(self.height as nat, |y: int| self.cell(x, y)),
            ),
        }
    }
}

impl<'a> Clone for Board<'a> {
    /// A board of its own with the same cells.
    fn clone(&self) -> (b: Board<'a>)
        ensures
            b@ == self@,
            self.wf() ==> b.wf(),
    {
        let mut board: Vec<BoardState<'a>> = Vec::new();
        let mut k: usize = 0;
        while k < self.board.len()
            invariant
                k <= self.board.len(),
                board@ == self.board@.take(k as int),
            decreases self.board.len() - k,
        {
            board.push(self.board[k]);
            proof {
                assert(self.board@.take(k + 1) =~= self.board@.take(k as int).push(
                    self.board@[k as int],
                ));
            }
            k += 1;
        }
        proof {
            assert(self.board@.take(k as int) =~= self.board@);
        }
        let b = Board { height: self.height, width: self.width, board };
        proof {
            assert(b@ =~~= self@);
        }
        b
    }
}

impl<'a> Board<'a> {
    /// The cell of column `x` and row `y`, read from the flat array.
    spec fn cell(&self, x: int, y: int) -> Cell {
        self.board@[x * self.height + y]@
    }

    /// The board holds one cell for each coordinate, and every placement
    /// recorded in a cell lies on the board.
    pub closed spec fn wf(&self) -> bool {
        &&& self.board@.len() == self.width * self.height
        &&& self@.placements_on_board()
    }

    /// A well-formed board has a well-formed grid.
    pub proof fn lemma_wf(&self)
        requires
            self.wf(),
        ensures
            self@.wf(),
            self@.placements_on_board(),
    {
    }

    /// A board `w` wide and `h` high, every cell of it `Empty`.
    pub fn new(w: usize, h: usize) -> (b: Board<'a>)
        requires
            w * h <= usize::MAX,
        ensures
            b.wf(),
            b@ == Grid::empty(w as nat, h as nat),
            b@.consistent(),
    {
        assert(h * w == w * h) by (nonlinear_arith);
        let b = Board { height: h, width: w, board: vec![BoardState::Empty; h * w] };
        proof {
            assert forall|x: int, y: int| 0 <= x < w && 0 <= y < h implies #[trigger] b.cell(x, y)
                == Cell::Empty by {
                lemma_cell_index(x, y, w as int, h as int);
            }
            assert(b@ =~~= Grid::empty(w as nat, h as nat));
        }
        b
    }

    fn to_idx(&self, x: usize, y: usize) -> (idx: usize)
        requires
            self.board@.len() == self.width * self.height,
            x < self.width,
            y < self.height,
        ensures
            idx == x * self.height + y,
            idx < self.board@.len(),
    {
        proof {
            lemma_cell_index(x as int, y as int, self.width as int, self.height as int);
            assert(self.board.len() == self.board@.len());
            assert(x * self.height >= 0) by (nonlinear_arith);
        }
        x * self.height + y
    }

    fn on_board(&self, x: usize, y: usize) -> (b: bool)
        ensures
            b == self@.on_board(x as int, y as int),
    {
        x < self.width && y < self.height
    }

    fn set(&mut self, x: usize, y: usize, state: BoardState<'a>)
        requires
            old(self).wf(),
            x < old(self).width,
            y < old(self).height,
            state@ matches Cell::Full(s, o) ==> old(self)@.holds(s, o),
        ensures
            final(self).wf(),
            final(self)@ == old(self)@.with_cell(x as int, y as int, state@),
    {
        let idx = self.to_idx(x, y);
        let ghost before = *self;
        self.board.set(idx, state);
        proof {
            let h = self.height as int;
            assert forall|x2: int, y2: int|
                0 <= x2 < self.width && 0 <= y2 < self.height implies #[trigger] self.cell(x2, y2)
                == before@.with_cell(x as int, y as int, state@).columns[x2][y2] by {
                lemma_cell_index(x2, y2, self.width as int, h);
                if x2 * h + y2 == idx {
                    lemma_cell_index_injective(x2, y2, x as int, y as int, h);
                }
            }
            assert(self@ =~~= before@.with_cell(x as int, y as int, state@));
            before@.lemma_with_cell_on_board(x as int, y as int, state@);
        }
    }

    /// The state of cell `(x, y)`; `Void` for every coordinate off the board.
    pub fn get(&self, x: usize, y: usize) -> (state: BoardState<'a>)
        requires
            self.wf(),
        ensures
            state@ == self@.at(x as int, y as int),
    {
        if self.on_board(x, y) {
            return self.board[self.to_idx(x, y)];
        }
        BoardState::Void
    }

    /// Makes cell `(x, y)` a hole. Off the board every cell is `Void`
    /// already, and nothing changes.
    pub fn erase(&mut self, x: usize, y: usize)
        requires
            old(self).wf(),
        ensures
            final(self).wf(),
            final(self)@ == old(self)@.with_cell(x as int, y as int, Cell::Void),
            old(self)@.consistent() && !(old(self)@.at(x as int, y as int) is Full)
                ==> final(self)@.consistent(),
    {
        proof {
            if self@.consistent() && !(self@.at(x as int, y as int) is Full) {
                self@.lemma_erased_consistent(x as int, y as int);
            }
        }
        if self.on_board(x, y) {
            self.set(x, y, BoardState::Void);
        } else {
            proof {
                assert(self@.with_cell(x as int, y as int, Cell::Void) =~~= self@);
            }
        }
    }

    /// The state of the cell that point `pt` of a shape lands on when the
    /// shape is placed at `origin`.
    fn get_offset(&self, pt: Point, origin: Point) -> (state: BoardState<'a>)
        requires
            self.wf(),
        ensures
            state@ == self@.at(pt.x + origin.x, pt.y + origin.y),
    {
        if origin.x < self.width && pt.x < self.width - origin.x && origin.y < self.height && pt.y
            < self.height - origin.y {
            self.get(pt.x + origin.x, pt.y + origin.y)
        } else {
            BoardState::Void
        }
    }

    /// Places `p` with its origin at `ll`, if every cell that it would cover
    /// is `Empty`. Otherwise nothing is placed and the board stays as it was.
    pub fn add_polyomino(&mut self, p: &'a Polyomino, ll: Point) -> (placed: bool)
        requires
            old(self).wf(),
        ensures
            final(self).wf(),
            placed == old(self)@.fits(p@, ll),
            placed ==> final(self)@ == old(self)@.placed(p@, ll),
            !placed ==> *final(self) == *old(self),
            old(self)@.consistent() ==> final(self)@.consistent(),
    {
        proof {
            if self@.consistent() && self@.fits(p@, ll) {
                self@.lemma_placed_consistent(p@, ll);
            }
        }
        let points = p.points();
        let mut k: usize = 0;
        while k < points.len()
            invariant
                k <= points.len(),
                points@ == p@,
                self.wf(),
                *self == *old(self),
                forall|i: int|
                    0 <= i < k ==> self@.at((#[trigger] p@[i]).x + ll.x, p@[i].y + ll.y)
                        == Cell::Empty,
            decreases points.len() - k,
        {
            if !self.get_offset(points[k], ll).is_empty() {
                return false;
            }
            k += 1;
        }
        let ghost before = self@;
        let ghost value = Cell::Full(p@, ll);
        proof {
            assert(before.stamped(p@.take(0), ll, value) =~~= before);
        }
        let mut k: usize = 0;
        while k < points.len()
            invariant
                k <= points.len(),
                points@ == p@,
                self.wf(),
                before.wf(),
                before.fits(p@, ll),
                value == Cell::Full(p@, ll),
                self@ == before.stamped(p@.take(k as int), ll, value),
            decreases points.len() - k,
        {
            let pt = points[k];
            proof {
                assert(before.at(p@[k as int].x + ll.x, p@[k as int].y + ll.y) == Cell::Empty);
                before.lemma_stamped_step(p@, k as int, ll, value);
            }
            self.set(pt.x + ll.x, pt.y + ll.y, BoardState::Full(p, ll.x, ll.y));
            k += 1;
        }
        proof {
            assert(p@.take(k as int) =~= p@);
        }
        true
    }

    /// Lifts the piece that covers cell `ll`, whichever cell of the piece
    /// that is: every cell of its placement becomes `Empty`. Where `ll` is
    /// not covered by a piece, nothing changes.
    pub fn remove_polyomino(&mut self, ll: Point)
        requires
            old(self).wf(),
        ensures
            final(self).wf(),
            final(self)@ == old(self)@.removed(ll.x as int, ll.y as int),
            old(self)@.consistent() ==> final(self)@.consistent(),
    {
        proof {
            if self@.consistent() {
                self@.lemma_removed_consistent(ll.x as int, ll.y as int);
            }
        }
        if let BoardState::Full(p, start_x, start_y) = self.get(ll.x, ll.y) {
            let ghost before = self@;
            let ghost origin = Point { x: start_x, y: start_y };
            let points = p.points();
            proof {
                assert(before.stamped(p@.take(0), origin, Cell::Empty) =~~= before);
                assert(before.on_board(ll.x as int, ll.y as int));
                assert(before.holds(p@, origin));
            }
            let mut k: usize = 0;
            while k < points.len()
                invariant
                    k <= points.len(),
                    points@ == p@,
                    self.wf(),
                    before.wf(),
                    before.holds(p@, origin),
                    origin == (Point { x: start_x, y: start_y }),
                    self@ == before.stamped(p@.take(k as int), origin, Cell::Empty),
                decreases points.len() - k,
            {
                let pt = points[k];
                proof {
                    assert(before.on_board(
                        p@[k as int].x + origin.x,
                        p@[k as int].y + origin.y,
                    ));
                    before.lemma_stamped_step(p@, k as int, origin, Cell::Empty);
                }
                self.set(pt.x + start_x, pt.y + start_y, BoardState::Empty);
                k += 1;
            }
            proof {
                assert(p@.take(k as int) =~= p@);
            }
        }
    }

    pub fn get_height(&self) -> (h: usize)
        ensures
            h == self@.height,
    {
        self.height
    }

    pub fn get_width(&self) -> (w: usize)
        ensures
            w == self@.width,
    {
        self.width
    }

    /// The rows of the board: `0..height`.
    pub fn row_range(&self) -> (rows: Range<usize>)
        ensures
            rows.start == 0,
            rows.end == self@.height,
    {
        0..self.height
    }

    /// The columns of the board: `0..width`.
    pub fn col_range(&self) -> (columns: Range<usize>)
        ensures
            columns.start == 0,
            columns.end == self@.width,
    {
        0..self.width
    }

    /// The board that the lines of a drawing describe: one row for each
    /// line, as wide as the longest line has bytes. The character at place
    /// `x` of line `y` makes cell `(x, y)` empty, unless it is a space;
    /// every other cell of the board is a hole.
    pub fn from_lines(lines: &Vec<String>) -> (b: Board<'a>)
        requires
            Grid::widest(lines.deep_view(), lines.len() as int) * lines.len() <= usize::MAX,
        ensures
            b.wf(),
            b@ == Grid::of_lines(lines.deep_view()),
            b@.consistent(),
    {
        let ghost text = lines.deep_view();
        let mut board_x: usize = 0;
        let board_y = lines.len();
        let mut k: usize = 0;
        while k < lines.len()
            invariant
                k <= lines.len(),
                text == lines.deep_view(),
                board_x == Grid::widest(text, k as int),
            decreases lines.len() - k,
        {
            let n = lines[k].as_str().as_bytes().len();
            proof {
                assert(text[k as int] == lines[k as int]@);
            }
            if n > board_x {
                board_x = n;
            }
            k += 1;
        }
        let mut b = Board::new(board_x, board_y);
        let mut y: usize = 0;
        while y < board_y
            invariant
                y <= board_y,
                board_y == lines.len(),
                text == lines.deep_view(),
                b.wf(),
                b@.width == board_x,
                b@.height == board_y,
                forall|i: int, j: int|
                    0 <= i < board_x && 0 <= j < board_y ==> !(#[trigger] b@.columns[i][j] is Full),
                forall|i: int, j: int|
                    0 <= i < board_x && 0 <= j < y ==> #[trigger] b@.columns[i][j]
                        == Grid::read_cell(text, i, j),
            decreases board_y - y,
        {
            let chars = chars_of(lines[y].as_str());
            proof {
                assert(text[y as int] == chars@);
            }
            let mut x: usize = 0;
            while x < board_x
                invariant
                    x <= board_x,
                    y < board_y,
                    board_y == lines.len(),
                    text == lines.deep_view(),
                    text[y as int] == chars@,
                    b.wf(),
                    b@.width == board_x,
                    b@.height == board_y,
                    forall|i: int, j: int|
                        0 <= i < board_x && 0 <= j < board_y ==> !(#[trigger] b@.columns[i][j]
                            is Full),
                    forall|i: int, j: int|
                        0 <= i < board_x && 0 <= j < y ==> #[trigger] b@.columns[i][j]
                            == Grid::read_cell(text, i, j),
                    forall|i: int|
                        0 <= i < x ==> #[trigger] b@.columns[i][y as int] == Grid::read_cell(
                            text,
                            i,
                            y as int,
                        ),
                decreases board_x - x,
            {
                let state = if x < chars.len() && chars[x] != ' ' {
                    BoardState::Empty
                } else {
                    BoardState::Void
                };
                b.set(x, y, state);
                x += 1;
            }
            y += 1;
        }
        proof {
            assert(b@ =~~= Grid::of_lines(text));
        }
        b
    }

    fn draw_corner(&self, out: &mut Vec<char>, y: usize)
        requires
            self.wf(),
        ensures
            final(out)@ == old(out)@ + self@.corner(y as int),
    {
        if self.get(0, y).is_void() {
            out.push(' ');
        } else {
            out.push('+');
        }
        proof {
            assert(out@ =~= old(out)@ + self@.corner(y as int));
        }
    }

    fn draw_top_edge(&self, out: &mut Vec<char>, x: usize)
        requires
            self.wf(),
            x < usize::MAX,
        ensures
            final(out)@ == old(out)@ + self@.top_edge(x as int),
    {
        if self.get(x, 0).is_void() {
            out.push(' ');
            if self.get(x + 1, 0).is_void() {
                out.push(' ');
            } else {
                out.push('+');
            }
        } else {
            out.push('-');
            out.push('+');
        }
        proof {
            assert(out@ =~= old(out)@ + self@.top_edge(x as int));
        }
    }

    fn draw_row_cell(&self, out: &mut Vec<char>, x: usize, y: usize)
        requires
            self.wf(),
            x < usize::MAX,
        ensures
            final(out)@ == old(out)@ + self@.row_cell(x as int, y as int),
    {
        let piece = self.get(x, y);
        if x == 0 {
            if piece.is_void() {
                out.push(' ');
            } else {
                out.push('|');
            }
        }
        match piece {
            BoardState::Empty => out.push('.'),
            _ => out.push(' '),
        }
        if piece.connected_to(self.get(x + 1, y)) {
            out.push(' ');
        } else {
            out.push('|');
        }
        proof {
            assert(out@ =~= old(out)@ + self@.row_cell(x as int, y as int));
        }
    }

    fn draw_bottom_edge(&self, out: &mut Vec<char>, x: usize, y: usize)
        requires
            self.wf(),
            x < usize::MAX,
            y < usize::MAX,
        ensures
            final(out)@ == old(out)@ + self@.bottom_edge(x as int, y as int),
    {
        let piece = self.get(x, y);
        let below = self.get(x, y + 1);
        if piece.connected_to(below) {
            out.push(' ');
            if piece.connected_to(self.get(x + 1, y)) && below.connected_to(self.get(x + 1, y + 1)) {
                out.push(' ');
            } else {
                out.push('+');
            }
        } else {
            out.push('-');
            out.push('+');
        }
        proof {
            assert(out@ =~= old(out)@ + self@.bottom_edge(x as int, y as int));
        }
    }

    /// The drawing of the board, as text.
    pub fn render(&self) -> (text: String)
        requires
            self.wf(),
        ensures
            text@ == self@.drawing(),
    {
        proof {
            self.lemma_wf();
        }
        let mut out: Vec<char> = Vec::new();
        self.draw_corner(&mut out, 0);
        let mut x: usize = 0;
        proof {
            assert(out@ =~= self@.corner(0) + joined(|x: int| self@.top_edge(x), 0));
        }
        while x < self.width
            invariant
                x <= self.width,
                self.wf(),
                out@ == self@.corner(0) + joined(|x: int| self@.top_edge(x), x as int),
            decreases self.width - x,
        {
            self.draw_top_edge(&mut out, x);
            proof {
                let edge = |x: int| self@.top_edge(x);
                assert(self@.corner(0) + joined(edge, x + 1) =~= (self@.corner(0) + joined(
                    edge,
                    x as int,
                )) + edge(x as int));
            }
            x += 1;
        }
        out.push('\n');
        let mut y: usize = 0;
        proof {
            assert(out@ =~= self@.top_border() + joined(
                |y: int| self@.row(y) + self@.bottom_border(y),
                0,
            ));
        }
        while y < self.height
            invariant
                y <= self.height,
                self.wf(),
                out@ == self@.top_border() + joined(
                    |y: int| self@.row(y) + self@.bottom_border(y),
                    y as int,
                ),
            decreases self.height - y,
        {
            let ghost above = out@;
            let mut x: usize = 0;
            proof {
                assert(above + joined(|x: int| self@.row_cell(x, y as int), 0) =~= above);
            }
            while x < self.width
                invariant
                    x <= self.width,
                    self.wf(),
                    out@ == above + joined(|x: int| self@.row_cell(x, y as int), x as int),
                decreases self.width - x,
            {
                self.draw_row_cell(&mut out, x, y);
                proof {
                    let cell = |x: int| self@.row_cell(x, y as int);
                    assert(above + joined(cell, x + 1) =~= (above + joined(cell, x as int)) + cell(
                        x as int,
                    ));
                }
                x += 1;
            }
            out.push('\n');
            let ghost with_row = out@;
            proof {
                assert(with_row =~= above + self@.row(y as int));
            }
            self.draw_corner(&mut out, y);
            let mut x: usize = 0;
            proof {
                assert(out@ =~= with_row + (self@.corner(y as int) + joined(
                    |x: int| self@.bottom_edge(x, y as int),
                    0,
                )));
            }
            while x < self.width
                invariant
                    x <= self.width,
                    y < self.height,
                    self.wf(),
                    out@ == with_row + (self@.corner(y as int) + joined(
                        |x: int| self@.bottom_edge(x, y as int),
                        x as int,
                    )),
                decreases self.width - x,
            {
                self.draw_bottom_edge(&mut out, x, y);
                proof {
                    let edge = |x: int| self@.bottom_edge(x, y as int);
                    assert(with_row + (self@.corner(y as int) + joined(edge, x + 1)) =~= (with_row
                        + (self@.corner(y as int) + joined(edge, x as int))) + edge(x as int));
                }
                x += 1;
            }
            out.push('\n');
            proof {
                let part = |y: int| self@.row(y) + self@.bottom_border(y);
                assert(out@ =~= above + part(y as int));
                assert(self@.top_border() + joined(part, y + 1) =~= (self@.top_border() + joined(
                    part,
                    y as int,
                )) + part(y as int));
            }
            y += 1;
        }
        string_from_chars(&out)
    }
}

} // verus!
