//! Sets of shapes, and the groups of variations that a search takes.

use crate::point::Point;
use crate::polyomino::canonical;
use crate::polyomino::images;
use crate::polyomino::is_variation_list;
use crate::polyomino::rotated;
use crate::polyomino::Polyomino;
use crate::text::lemma_lines_of_nonempty;
use crate::text::lines_of;
use crate::text::lines_view;
use crate::text::split_lines;
use vstd::prelude::*;

verus! {

/// How the groups of variations are cut down, so that a search does not find
/// each solution again in every position of the board.
#[derive(Debug, Clone, Copy, PartialEq, Eq)]
pub enum Restrictions {
    /// Every shape comes with all its variations.
    Unrestricted,
    /// The first shape with eight variations comes as it is only. On a
    /// square board this leaves one solution of every eight.
    SquareSymmetry,
    /// The first shape with eight variations comes as it is and turned once.
    /// On a board that is longer than wide this leaves one solution of every
    /// four.
    RectangularSymmetry,
}

/// The sets of shapes that come with the library.
#[derive(Debug, Clone, Copy, PartialEq, Eq, Hash)]
pub enum PredefinedPolyominoes {
    Monominoes,
    Dominoes,
    Triominoes,
    Tetrominoes,
    Pentominoes,
    Hexominoes,
    Heptominoes,
    Octominoes,
}

impl PredefinedPolyominoes {
    /// The number of cells of each shape of the set.
    pub open spec fn cells(self) -> nat {
        match self {
            PredefinedPolyominoes::Monominoes => 1,
            PredefinedPolyominoes::Dominoes => 2,
            PredefinedPolyominoes::Triominoes => 3,
            PredefinedPolyominoes::Tetrominoes => 4,
            PredefinedPolyominoes::Pentominoes => 5,
            PredefinedPolyominoes::Hexominoes => 6,
            PredefinedPolyominoes::Heptominoes => 7,
            PredefinedPolyominoes::Octominoes => 8,
        }
    }

    /// The file that holds the shapes of the set.
    pub open spec fn file(self) -> Seq<char> {
        match self {
            PredefinedPolyominoes::Monominoes => "data/monomino.poly"@,
            PredefinedPolyominoes::Dominoes => "data/domino.poly"@,
            PredefinedPolyominoes::Triominoes => "data/triomino.poly"@,
            PredefinedPolyominoes::Tetrominoes => "data/tetromino.poly"@,
            PredefinedPolyominoes::Pentominoes => "data/pentomino.poly"@,
            PredefinedPolyominoes::Hexominoes => "data/hexomino.poly"@,
            PredefinedPolyominoes::Heptominoes => "data/heptomino.poly"@,
            PredefinedPolyominoes::Octominoes => "data/octomino.poly"@,
        }
    }

    /// The number of cells of each shape of the set.
    pub fn cell_count(&self) -> (n: usize)
        ensures
            n == self.cells(),
    {
        match self {
            PredefinedPolyominoes::Monominoes => 1,
            PredefinedPolyominoes::Dominoes => 2,
            PredefinedPolyominoes::Triominoes => 3,
            PredefinedPolyominoes::Tetrominoes => 4,
            PredefinedPolyominoes::Pentominoes => 5,
            PredefinedPolyominoes::Hexominoes => 6,
            PredefinedPolyominoes::Heptominoes => 7,
            PredefinedPolyominoes::Octominoes => 8,
        }
    }

    /// The name of the file that holds the shapes of the set.
    pub fn file_name(&self) -> (name: &'static str)
        ensures
            name@ == self.file(),
    {
        match self {
            PredefinedPolyominoes::Monominoes => "data/monomino.poly",
            PredefinedPolyominoes::Dominoes => "data/domino.poly",
            PredefinedPolyominoes::Triominoes => "data/triomino.poly",
            PredefinedPolyominoes::Tetrominoes => "data/tetromino.poly",
            PredefinedPolyominoes::Pentominoes => "data/pentomino.poly",
            PredefinedPolyominoes::Hexominoes => "data/hexomino.poly",
            PredefinedPolyominoes::Heptominoes => "data/heptomino.poly",
            PredefinedPolyominoes::Octominoes => "data/octomino.poly",
        }
    }
}

/// The point `(x, y)`.
pub open spec fn at(x: usize, y: usize) -> Point {
    Point { x, y }
}

/// The one shape of one cell.
pub open spec fn monominoes() -> Seq<Seq<Point>> {
    seq![
        canonical(seq![at(0, 0)]),
    ]
}

/// The one shape of one cell.
pub fn build_monominoes() -> (r: Vec<Polyomino>)
    ensures
        r.deep_view() == monominoes(),
{
    let mut r: Vec<Polyomino> = Vec::new();

    let mut p: Vec<Point> = Vec::new();
    p.push(Point::new(0, 0));
    proof {
        assert(p@ =~= seq![at(0, 0)]);
    }
    r.push(Polyomino::new(p));

    proof {
        assert(r.deep_view() =~= monominoes());
    }
    r
}

/// The one shape of two cells.
pub open spec fn dominoes() -> Seq<Seq<Point>> {
    seq![
        canonical(seq![at(0, 0), at(1, 0)]),
    ]
}

/// The one shape of two cells.
pub fn build_dominoes() -> (r: Vec<Polyomino>)
    ensures
        r.deep_view() == dominoes(),
{
    let mut r: Vec<Polyomino> = Vec::new();

    let mut p: Vec<Point> = Vec::new();
    p.push(Point::new(0, 0));
    p.push(Point::new(1, 0));
    proof {
        assert(p@ =~= seq![at(0, 0), at(1, 0)]);
    }
    r.push(Polyomino::new(p));

    proof {
        assert(r.deep_view() =~= dominoes());
    }
    r
}

/// The two shapes of three cells.
pub open spec fn triominoes() -> Seq<Seq<Point>> {
    seq![
        canonical(seq![at(0, 0), at(1, 0), at(2, 0)]),
        canonical(seq![at(0, 0), at(1, 0), at(0, 1)]),
    ]
}

/// The two shapes of three cells.
pub fn build_triominoes() -> (r: Vec<Polyomino>)
    ensures
        r.deep_view() == triominoes(),
{
    let mut r: Vec<Polyomino> = Vec::new();

    let mut p: Vec<Point> = Vec::new();
    p.push(Point::new(0, 0));
    p.push(Point::new(1, 0));
    p.push(Point::new(2, 0));
    proof {
        assert(p@ =~= seq![at(0, 0), at(1, 0), at(2, 0)]);
    }
    r.push(Polyomino::new(p));

    let mut p: Vec<Point> = Vec::new();
    p.push(Point::new(0, 0));
    p.push(Point::new(1, 0));
    p.push(Point::new(0, 1));
    proof {
        assert(p@ =~= seq![at(0, 0), at(1, 0), at(0, 1)]);
    }
    r.push(Polyomino::new(p));

    proof {
        assert(r.deep_view() =~= triominoes());
    }
    r
}

/// The five shapes of four cells.
pub open spec fn tetrominoes() -> Seq<Seq<Point>> {
    seq![
        canonical(seq![at(0, 0), at(0, 1), at(1, 1), at(1, 0)]),
        canonical(seq![at(0, 0), at(0, 1), at(0, 2), at(1, 0)]),
        canonical(seq![at(0, 0), at(0, 1), at(0, 2), at(0, 3)]),
        canonical(seq![at(0, 0), at(0, 1), at(0, 2), at(1, 1)]),
        canonical(seq![at(0, 0), at(0, 1), at(1, 1), at(1, 2)]),
    ]
}

/// The five shapes of four cells.
pub fn build_tetrominoes() -> (r: Vec<Polyomino>)
    ensures
        r.deep_view() == tetrominoes(),
{
    let mut r: Vec<Polyomino> = Vec::new();

    let mut p: Vec<Point> = Vec::new();
    p.push(Point::new(0, 0));
    p.push(Point::new(0, 1));
    p.push(Point::new(1, 1));
    p.push(Point::new(1, 0));
    proof {
        assert(p@ =~= seq![at(0, 0), at(0, 1), at(1, 1), at(1, 0)]);
    }
    r.push(Polyomino::new(p));

    let mut p: Vec<Point> = Vec::new();
    p.push(Point::new(0, 0));
    p.push(Point::new(0, 1));
    p.push(Point::new(0, 2));
    p.push(Point::new(1, 0));
    proof {
        assert(p@ =~= seq![at(0, 0), at(0, 1), at(0, 2), at(1, 0)]);
    }
    r.push(Polyomino::new(p));

    let mut p: Vec<Point> = Vec::new();
    p.push(Point::new(0, 0));
    p.push(Point::new(0, 1));
    p.push(Point::new(0, 2));
    p.push(Point::new(0, 3));
    proof {
        assert(p@ =~= seq![at(0, 0), at(0, 1), at(0, 2), at(0, 3)]);
    }
    r.push(Polyomino::new(p));

    let mut p: Vec<Point> = Vec::new();
    p.push(Point::new(0, 0));
    p.push(Point::new(0, 1));
    p.push(Point::new(0, 2));
    p.push(Point::new(1, 1));
    proof {
        assert(p@ =~= seq![at(0, 0), at(0, 1), at(0, 2), at(1, 1)]);
    }
    r.push(Polyomino::new(p));

    let mut p: Vec<Point> = Vec::new();
    p.push(Point::new(0, 0));
    p.push(Point::new(0, 1));
    p.push(Point::new(1, 1));
    p.push(Point::new(1, 2));
    proof {
        assert(p@ =~= seq![at(0, 0), at(0, 1), at(1, 1), at(1, 2)]);
    }
    r.push(Polyomino::new(p));

    proof {
        assert(r.deep_view() =~= tetrominoes());
    }
    r
}

/// The twelve shapes of five cells.
pub open spec fn pentominoes() -> Seq<Seq<Point>> {
    seq![
        canonical(seq![at(0, 0), at(0, 1), at(0, 2), at(0, 3), at(0, 4)]),
        canonical(seq![at(0, 0), at(0, 1), at(0, 2), at(0, 3), at(1, 3)]),
        canonical(seq![at(0, 0), at(0, 1), at(0, 2), at(1, 2), at(0, 3)]),
        canonical(seq![at(0, 0), at(0, 1), at(1, 1), at(2, 1), at(0, 2)]),
        canonical(seq![at(0, 0), at(0, 1), at(0, 2), at(1, 1), at(1, 0)]),
        canonical(seq![at(0, 0), at(0, 1), at(1, 1), at(1, 2), at(1, 3)]),
        canonical(seq![at(0, 0), at(0, 1), at(1, 1), at(1, 2), at(2, 2)]),
        canonical(seq![at(1, 0), at(1, 1), at(1, 2), at(2, 2), at(0, 1)]),
        canonical(seq![at(0, 0), at(1, 0), at(0, 1), at(0, 2), at(1, 2)]),
        canonical(seq![at(0, 0), at(1, 0), at(2, 0), at(0, 1), at(0, 2)]),
        canonical(seq![at(1, 0), at(1, 1), at(1, 2), at(0, 0), at(2, 2)]),
        canonical(seq![at(1, 0), at(1, 1), at(1, 2), at(0, 1), at(2, 1)]),
    ]
}

/// The twelve shapes of five cells.
pub fn build_pentominoes() -> (r: Vec<Polyomino>)
    ensures
        r.deep_view() == pentominoes(),
{
    let mut r: Vec<Polyomino> = Vec::new();

    let mut p: Vec<Point> = Vec::new();
    p.push(Point::new(0, 0));
    p.push(Point::new(0, 1));
    p.push(Point::new(0, 2));
    p.push(Point::new(0, 3));
    p.push(Point::new(0, 4));
    proof {
        assert(p@ =~= seq![at(0, 0), at(0, 1), at(0, 2), at(0, 3), at(0, 4)]);
    }
    r.push(Polyomino::new(p));

    let mut p: Vec<Point> = Vec::new();
    p.push(Point::new(0, 0));
    p.push(Point::new(0, 1));
    p.push(Point::new(0, 2));
    p.push(Point::new(0, 3));
    p.push(Point::new(1, 3));
    proof {
        assert(p@ =~= seq![at(0, 0), at(0, 1), at(0, 2), at(0, 3), at(1, 3)]);
    }
    r.push(Polyomino::new(p));

    let mut p: Vec<Point> = Vec::new();
    p.push(Point::new(0, 0));
    p.push(Point::new(0, 1));
    p.push(Point::new(0, 2));
    p.push(Point::new(1, 2));
    p.push(Point::new(0, 3));
    proof {
        assert(p@ =~= seq![at(0, 0), at(0, 1), at(0, 2), at(1, 2), at(0, 3)]);
    }
    r.push(Polyomino::new(p));

    let mut p: Vec<Point> = Vec::new();
    p.push(Point::new(0, 0));
    p.push(Point::new(0, 1));
    p.push(Point::new(1, 1));
    p.push(Point::new(2, 1));
    p.push(Point::new(0, 2));
    proof {
        assert(p@ =~= seq![at(0, 0), at(0, 1), at(1, 1), at(2, 1), at(0, 2)]);
    }
    r.push(Polyomino::new(p));

    let mut p: Vec<Point> = Vec::new();
    p.push(Point::new(0, 0));
    p.push(Point::new(0, 1));
    p.push(Point::new(0, 2));
    p.push(Point::new(1, 1));
    p.push(Point::new(1, 0));
    proof {
        assert(p@ =~= seq![at(0, 0), at(0, 1), at(0, 2), at(1, 1), at(1, 0)]);
    }
    r.push(Polyomino::new(p));

    let mut p: Vec<Point> = Vec::new();
    p.push(Point::new(0, 0));
    p.push(Point::new(0, 1));
    p.push(Point::new(1, 1));
    p.push(Point::new(1, 2));
    p.push(Point::new(1, 3));
    proof {
        assert(p@ =~= seq![at(0, 0), at(0, 1), at(1, 1), at(1, 2), at(1, 3)]);
    }
    r.push(Polyomino::new(p));

    let mut p: Vec<Point> = Vec::new();
    p.push(Point::new(0, 0));
    p.push(Point::new(0, 1));
    p.push(Point::new(1, 1));
    p.push(Point::new(1, 2));
    p.push(Point::new(2, 2));
    proof {
        assert(p@ =~= seq![at(0, 0), at(0, 1), at(1, 1), at(1, 2), at(2, 2)]);
    }
    r.push(Polyomino::new(p));

    let mut p: Vec<Point> = Vec::new();
    p.push(Point::new(1, 0));
    p.push(Point::new(1, 1));
    p.push(Point::new(1, 2));
    p.push(Point::new(2, 2));
    p.push(Point::new(0, 1));
    proof {
        assert(p@ =~= seq![at(1, 0), at(1, 1), at(1, 2), at(2, 2), at(0, 1)]);
    }
    r.push(Polyomino::new(p));

    let mut p: Vec<Point> = Vec::new();
    p.push(Point::new(0, 0));
    p.push(Point::new(1, 0));
    p.push(Point::new(0, 1));
    p.push(Point::new(0, 2));
    p.push(Point::new(1, 2));
    proof {
        assert(p@ =~= seq![at(0, 0), at(1, 0), at(0, 1), at(0, 2), at(1, 2)]);
    }
    r.push(Polyomino::new(p));

    let mut p: Vec<Point> = Vec::new();
    p.push(Point::new(0, 0));
    p.push(Point::new(1, 0));
    p.push(Point::new(2, 0));
    p.push(Point::new(0, 1));
    p.push(Point::new(0, 2));
    proof {
        assert(p@ =~= seq![at(0, 0), at(1, 0), at(2, 0), at(0, 1), at(0, 2)]);
    }
    r.push(Polyomino::new(p));

    let mut p: Vec<Point> = Vec::new();
    p.push(Point::new(1, 0));
    p.push(Point::new(1, 1));
    p.push(Point::new(1, 2));
    p.push(Point::new(0, 0));
    p.push(Point::new(2, 2));
    proof {
        assert(p@ =~= seq![at(1, 0), at(1, 1), at(1, 2), at(0, 0), at(2, 2)]);
    }
    r.push(Polyomino::new(p));

    let mut p: Vec<Point> = Vec::new();
    p.push(Point::new(1, 0));
    p.push(Point::new(1, 1));
    p.push(Point::new(1, 2));
    p.push(Point::new(0, 1));
    p.push(Point::new(2, 1));
    proof {
        assert(p@ =~= seq![at(1, 0), at(1, 1), at(1, 2), at(0, 1), at(2, 1)]);
    }
    r.push(Polyomino::new(p));

    proof {
        assert(r.deep_view() =~= pentominoes());
    }
    r
}

/// A shape is asymmetric when its eight images are eight shapes.
pub open spec fn is_asymmetric(s: Seq<Point>) -> bool {
    images(s).no_duplicates()
}

/// A shape has eight variations exactly when it is asymmetric.
pub proof fn lemma_asymmetric_count(list: Seq<Seq<Point>>, s: Seq<Point>)
    requires
        is_variation_list(list, s),
    ensures
        list.len() == 8 <==> is_asymmetric(s),
{
    let all = images(s);
    list.unique_seq_to_set();
    assert(list.to_set() =~= all.to_set()) by {
        assert forall|t: Seq<Point>| list.to_set().contains(t) <==> all.to_set().contains(t) by {
            assert(list.contains(t) <==> all.contains(t));
        }
    }
    if is_asymmetric(s) {
        all.unique_seq_to_set();
    }
    if list.len() == 8 {
        all.lemma_no_dup_set_cardinality();
    }
}

/// Shape `i` of `shapes` is asymmetric, and none before it is.
pub open spec fn is_first_asymmetric(shapes: Seq<Seq<Point>>, i: int) -> bool {
    &&& is_asymmetric(shapes[i])
    &&& forall|j: int| 0 <= j < i ==> !is_asymmetric(#[trigger] shapes[j])
}

/// `group` is the group of shape `i` of `shapes` under the restriction
/// `restrict`: the list of its variations in some order, but for the first
/// asymmetric shape under a restriction, which comes as the restriction
/// says.
pub open spec fn is_group_of(
    restrict: Restrictions,
    shapes: Seq<Seq<Point>>,
    i: int,
    group: Seq<Seq<Point>>,
) -> bool {
    let s = shapes[i];
    match restrict {
        Restrictions::Unrestricted => is_variation_list(group, s),
        Restrictions::SquareSymmetry => if is_first_asymmetric(shapes, i) {
            group == seq![s]
        } else {
            is_variation_list(group, s)
        },
        Restrictions::RectangularSymmetry => if is_first_asymmetric(shapes, i) {
            group == seq![s, rotated(s)]
        } else {
            is_variation_list(group, s)
        },
    }
}

/// The groups of a search: for every shape of `polys` its variations, cut
/// down as `restrict` says.
pub fn build_variations(polys: &Vec<Polyomino>, restrict: Restrictions) -> (res: Vec<
    Vec<Polyomino>,
>)
    ensures
        res.len() == polys.len(),
        forall|i: int|
            0 <= i < polys.len() ==> is_group_of(
                restrict,
                polys.deep_view(),
                i,
                #[trigger] res.deep_view()[i],
            ),
{
    let mut res: Vec<Vec<Polyomino>> = Vec::with_capacity(polys.len());
    let mut found_asym = false;
    let ghost shapes = polys.deep_view();
    let mut k: usize = 0;
    while k < polys.len()
        invariant
            k <= polys.len(),
            res.len() == k,
            shapes == polys.deep_view(),
            found_asym <==> exists|j: int| 0 <= j < k && is_asymmetric(#[trigger] shapes[j]),
            forall|i: int|
                0 <= i < k ==> is_group_of(restrict, shapes, i, #[trigger] res.deep_view()[i]),
        decreases polys.len() - k,
    {
        let p = &polys[k];
        let mut variations = p.make_all_variations();
        let ghost before = res.deep_view();
        proof {
            lemma_asymmetric_count(variations.deep_view(), p@);
            assert(shapes[k as int] == p@);
        }
        let asymmetric = variations.len() == 8;
        match restrict {
            Restrictions::Unrestricted => (),
            Restrictions::SquareSymmetry => {
                if !found_asym && asymmetric {
                    variations = Vec::new();
                    variations.push(p.clone());
                    proof {
                        assert(variations.deep_view() =~= seq![p@]);
                    }
                }
            },
            Restrictions::RectangularSymmetry => {
                if !found_asym && asymmetric {
                    variations = Vec::new();
                    variations.push(p.clone());
                    variations.push(p.clone().rotate());
                    proof {
                        assert(variations.deep_view() =~= seq![p@, rotated(p@)]);
                    }
                }
            },
        }
        if asymmetric {
            found_asym = true;
        }
        proof {
            assert(is_group_of(restrict, shapes, k as int, variations.deep_view()));
        }
        res.push(variations);
        proof {
            let after = res.deep_view();
            assert(after[k as int] == variations.deep_view());
            assert forall|i: int| 0 <= i < k + 1 implies is_group_of(
                restrict,
                shapes,
                i,
                #[trigger] after[i],
            ) by {
                if i < k {
                    assert(after[i] == before[i]);
                }
            }
        }
        k += 1;
    }
    res
}

/// The groups of a search on a board that is longer than wide: all the
/// variations of every shape, but of the first asymmetric one, which comes
/// as it is and turned once.
pub fn build_rect_variations(polys: &Vec<Polyomino>) -> (res: Vec<Vec<Polyomino>>)
    ensures
        res.len() == polys.len(),
        forall|i: int|
            0 <= i < polys.len() ==> is_group_of(
                Restrictions::RectangularSymmetry,
                polys.deep_view(),
                i,
                #[trigger] res.deep_view()[i],
            ),
{
    build_variations(polys, Restrictions::RectangularSymmetry)
}

/// The points that the first `upto` characters of row `row` of a shape
/// stand for: every character but the space is a point, with the row for
/// its `x` and its place in the line for its `y`.
pub open spec fn row_points(line: Seq<char>, row: usize, upto: int) -> Seq<Point>
    decreases upto,
{
    if upto <= 0 {
        Seq::empty()
    } else if line[upto - 1] != ' ' {
        row_points(line, row, upto - 1).push(Point { x: row, y: (upto - 1) as usize })
    } else {
        row_points(line, row, upto - 1)
    }
}

/// What has been read after the first `k` lines: the shapes that are
/// complete, the points of the shape that is being read, and the number of
/// its rows so far. An empty line ends a shape; any other line is one more
/// row of it.
pub open spec fn read_lines(lines: Seq<Seq<char>>, k: int) -> (Seq<Seq<Point>>, Seq<Point>, nat)
    decreases k,
{
    if k <= 0 {
        (Seq::empty(), Seq::empty(), 0)
    } else {
        let (shapes, points, rows) = read_lines(lines, k - 1);
        let line = lines[k - 1];
        if line.len() == 0 {
            (shapes.push(canonical(points)), Seq::empty(), 0)
        } else {
            (shapes, points + row_points(line, rows as usize, line.len() as int), rows + 1)
        }
    }
}

/// The shapes that a text describes. Shapes are separated by empty lines;
/// a shape without an empty line after it ends the text.
pub open spec fn shapes_in(text: Seq<char>) -> Seq<Seq<Point>> {
    let lines = lines_of(text);
    let (shapes, points, rows) = read_lines(lines, lines.len() as int);
    if points.len() > 0 {
        shapes.push(canonical(points))
    } else {
        shapes
    }
}

/// No more rows have been read than lines.
proof fn lemma_read_lines_rows(lines: Seq<Seq<char>>, k: int)
    requires
        0 <= k,
    ensures
        read_lines(lines, k).2 <= k,
    decreases k,
{
    if k > 0 {
        lemma_read_lines_rows(lines, k - 1);
    }
}

/// Reads the shapes that `contents` describes.
pub fn read_polyomino_string(contents: &str) -> (res: Vec<Polyomino>)
    ensures
        res.deep_view() == shapes_in(contents@),
{
    let lines = split_lines(contents);
    let ghost text = lines_view(lines@);
    let mut res: Vec<Polyomino> = Vec::new();
    let mut count: usize = 0;
    let mut points: Vec<Point> = Vec::new();
    let mut k: usize = 0;
    proof {
        assert(res.deep_view() =~= Seq::<Seq<Point>>::empty());
    }
    while k < lines.len()
        invariant
            k <= lines.len(),
            text == lines_view(lines@),
            res.deep_view() == read_lines(text, k as int).0,
            points@ == read_lines(text, k as int).1,
            count == read_lines(text, k as int).2,
        decreases lines.len() - k,
    {
        let line = &lines[k];
        proof {
            lemma_read_lines_rows(text, k as int);
            assert(text[k as int] == line@);
        }
        if line.len() == 0 {
            let ghost before = res.deep_view();
            let shape = Polyomino::new(points);
            res.push(shape);
            proof {
                assert(res.deep_view() =~= before.push(shape@));
            }
            points = Vec::new();
            count = 0;
        } else {
            let ghost before = points@;
            let mut i: usize = 0;
            proof {
                assert(before + row_points(line@, count, 0) =~= before);
            }
            while i < line.len()
                invariant
                    i <= line.len(),
                    points@ == before + row_points(line@, count, i as int),
                decreases line.len() - i,
            {
                if line[i] != ' ' {
                    points.push(Point::new(count, i));
                    proof {
                        assert(before + row_points(line@, count, i + 1) =~= (before + row_points(
                            line@,
                            count,
                            i as int,
                        )).push(Point { x: count, y: i }));
                    }
                }
                i += 1;
            }
            count += 1;
        }
        k += 1;
    }
    proof {
        lemma_lines_of_nonempty(contents@);
    }
    if points.len() > 0 {
        let ghost before = res.deep_view();
        let shape = Polyomino::new(points);
        res.push(shape);
        proof {
            assert(res.deep_view() =~= before.push(shape@));
        }
    }
    res
}

} // verus!
