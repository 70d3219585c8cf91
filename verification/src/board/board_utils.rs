//! Searching a board for room, and fitting shapes into it.

use crate::board::grid::Cell;
use crate::board::grid::Grid;
use crate::board::Board;
use crate::fx::cell_set_contains;
use crate::fx::cell_set_insert;
use crate::fx::cell_set_new;
use crate::fx::cell_set_to_vec;
use crate::fx::cells;
use crate::point::Point;
use crate::polyomino::Polyomino;
use rustc_hash::FxHashSet;
use std::collections::VecDeque;
use vstd::prelude::*;

verus! {

/// The first `Empty` cell of the board: the lowest one of the leftmost
/// column that has any. `None` on a board that is covered.
pub fn get_first_unoccupied(b: &Board) -> (first: Option<Point>)
    requires
        b.wf(),
    ensures
        first == b@.first_unoccupied(),
        first matches Some(p) ==> b@.is_first_unoccupied(p),
        first is None ==> b@.is_covered(),
{
    let width = b.get_width();
    let height = b.get_height();
    proof {
        b.lemma_wf();
        b@.lemma_first_unoccupied();
    }
    let mut x: usize = 0;
    while x < width
        invariant
            x <= width,
            b.wf(),
            b@.wf(),
            width == b@.width,
            height == b@.height,
            forall|i: int, j: int|
                b@.on_board(i, j) && i < x ==> #[trigger] b@.columns[i][j] != Cell::Empty,
        decreases width - x,
    {
        let mut y: usize = 0;
        while y < height
            invariant
                x < width,
                y <= height,
                b.wf(),
                b@.wf(),
                width == b@.width,
                height == b@.height,
                forall|i: int, j: int|
                    b@.on_board(i, j) && (i < x || (i == x && j < y))
                        ==> #[trigger] b@.columns[i][j] != Cell::Empty,
            decreases height - y,
        {
            if b.get(x, y).is_empty() {
                let p = Point::new(x, y);
                proof {
                    assert(b@.is_first_unoccupied(p));
                    b@.lemma_first_unoccupied();
                    b@.lemma_first_unoccupied_unique(p, b@.first_unoccupied().unwrap());
                }
                return Some(p);
            }
            y += 1;
        }
        x += 1;
    }
    proof {
        assert(b@.is_covered());
        b@.lemma_first_unoccupied();
        if b@.first_unoccupied() is Some {
            let q = b@.first_unoccupied().unwrap();
            assert(b@.columns[q.x as int][q.y as int] != Cell::Empty);
        }
    }
    None
}

/// The `Empty` cells next to `p`: above, below, left and right of it.
pub fn get_adjacent(p: Point, b: &Board) -> (adj: FxHashSet<(usize, usize)>)
    requires
        b.wf(),
    ensures
        cells(adj) == b@.open_neighbours(p),
{
    let mut adj = cell_set_new();
    if p.y != 0 && b.get(p.x, p.y - 1).is_empty() {
        cell_set_insert(&mut adj, (p.x, p.y - 1));
    }
    if p.x != 0 && b.get(p.x - 1, p.y).is_empty() {
        cell_set_insert(&mut adj, (p.x - 1, p.y));
    }
    if p.y != usize::MAX && b.get(p.x, p.y + 1).is_empty() {
        cell_set_insert(&mut adj, (p.x, p.y + 1));
    }
    if p.x != usize::MAX && b.get(p.x + 1, p.y).is_empty() {
        cell_set_insert(&mut adj, (p.x + 1, p.y));
    }
    proof {
        assert(cells(adj) =~= b@.open_neighbours(p));
    }
    adj
}

/// The region of `p`: every `Empty` cell that can be reached from `p` by
/// steps from one `Empty` cell to the next. Nothing where `p` is not `Empty`.
pub fn get_all_adjacent(p: Point, b: &Board) -> (region: FxHashSet<(usize, usize)>)
    requires
        b.wf(),
    ensures
        cells(region) == b@.region(p),
{
    let mut region = cell_set_new();
    if !b.get(p.x, p.y).is_empty() {
        proof {
            assert forall|c: (usize, usize)| !b@.region(p).contains(c) by {
                if b@.connected(p, Point { x: c.0, y: c.1 }) {
                    let path = choose|path: Seq<Point>|
                        #[trigger] b@.is_open_path(path) && path[0] == p && path[path.len() - 1]
                            == (Point { x: c.0, y: c.1 });
                    assert(b@.at(path[0].x as int, path[0].y as int) == Cell::Empty);
                }
            }
            assert(cells(region) =~= b@.region(p));
        }
        return region;
    }
    let mut pending: VecDeque<Point> = VecDeque::new();
    pending.push_back(p);
    proof {
        b.lemma_wf();
        b@.lemma_connected_self(p);
        assert(pending@[0] == p);
    }
    while pending.len() > 0
        invariant
            b.wf(),
            b@.wf(),
            cells(region).contains((p.x, p.y)) || pending@.contains(p),
            forall|c: (usize, usize)|
                cells(region).contains(c) ==> b@.connected(p, Point { x: c.0, y: c.1 }),
            forall|i: int| 0 <= i < pending@.len() ==> b@.connected(p, #[trigger] pending@[i]),
            forall|c: (usize, usize), d: (usize, usize)|
                cells(region).contains(c) && #[trigger] b@.open_neighbours(
                    Point { x: c.0, y: c.1 },
                ).contains(d) ==> cells(region).contains(d) || pending@.contains(
                    Point { x: d.0, y: d.1 },
                ),
        decreases b@.unseen(cells(region), b@.width as int), pending@.len(),
    {
        let ghost queued = pending@;
        let ghost seen = cells(region);
        let next = pending.pop_front();
        let next_p = next.unwrap();
        let ghost rest = pending@;
        let cell = (next_p.x, next_p.y);
        proof {
            assert(queued[0] == next_p);
            assert(b@.connected(p, next_p));
            assert forall|q: Point| queued.contains(q) implies q == next_p || rest.contains(q) by {
                let i = choose|i: int| 0 <= i < queued.len() && queued[i] == q;
                if i > 0 {
                    assert(rest[i - 1] == q);
                }
            }
            assert forall|i: int| 0 <= i < rest.len() implies b@.connected(
                p,
                #[trigger] rest[i],
            ) by {
                assert(rest[i] == queued[i + 1]);
            }
        }
        if !cell_set_contains(&region, cell) {
            proof {
                let path = choose|path: Seq<Point>|
                    #[trigger] b@.is_open_path(path) && path[0] == p && path[path.len() - 1]
                        == next_p;
                assert(b@.at(path[path.len() - 1].x as int, path[path.len() - 1].y as int)
                    == Cell::Empty);
                b@.lemma_unseen_insert(seen, cell, b@.width as int);
            }
            cell_set_insert(&mut region, cell);
            let adj = get_adjacent(next_p, b);
            let around = cell_set_to_vec(&adj);
            let mut i: usize = 0;
            while i < around.len()
                invariant
                    i <= around.len(),
                    b.wf(),
                    b@.connected(p, next_p),
                    forall|d: (usize, usize)|
                        around@.contains(d) <==> b@.open_neighbours(next_p).contains(d),
                    forall|q: Point| rest.contains(q) ==> pending@.contains(q),
                    forall|j: int|
                        0 <= j < i ==> pending@.contains(
                            Point { x: (#[trigger] around@[j]).0, y: around@[j].1 },
                        ),
                    forall|j: int| 0 <= j < pending@.len() ==> b@.connected(p, #[trigger] pending@[j]),
                decreases around.len() - i,
            {
                let a = around[i];
                let ghost earlier = pending@;
                proof {
                    assert(around@.contains(a));
                    assert(b@.open_neighbours(next_p).contains(a));
                    b@.lemma_connected_step(p, next_p, Point { x: a.0, y: a.1 });
                }
                pending.push_back(Point::new(a.0, a.1));
                proof {
                    assert(pending@[earlier.len() as int] == (Point { x: a.0, y: a.1 }));
                    assert forall|q: Point| earlier.contains(q) implies pending@.contains(q) by {
                        let j = choose|j: int| 0 <= j < earlier.len() && earlier[j] == q;
                        assert(pending@[j] == q);
                    }
                    assert forall|j: int| 0 <= j < i + 1 implies pending@.contains(
                        Point { x: (#[trigger] around@[j]).0, y: around@[j].1 },
                    ) by {
                        if j < i {
                            assert(earlier.contains(Point { x: around@[j].0, y: around@[j].1 }));
                        }
                    }
                }
                i += 1;
            }
            proof {
                assert forall|c: (usize, usize), d: (usize, usize)|
                    cells(region).contains(c) && #[trigger] b@.open_neighbours(
                        Point { x: c.0, y: c.1 },
                    ).contains(d) implies cells(region).contains(d) || pending@.contains(
                    Point { x: d.0, y: d.1 },
                ) by {
                    if c == cell {
                        assert(around@.contains(d));
                        let j = choose|j: int| 0 <= j < around@.len() && around@[j] == d;
                        assert(pending@.contains(Point { x: around@[j].0, y: around@[j].1 }));
                    } else {
                        assert(seen.contains(c));
                        if !seen.contains(d) {
                            assert(queued.contains(Point { x: d.0, y: d.1 }));
                        }
                    }
                }
            }
        } else {
            proof {
                assert forall|c: (usize, usize), d: (usize, usize)|
                    cells(region).contains(c) && #[trigger] b@.open_neighbours(
                        Point { x: c.0, y: c.1 },
                    ).contains(d) implies cells(region).contains(d) || pending@.contains(
                    Point { x: d.0, y: d.1 },
                ) by {
                    if !seen.contains(d) {
                        assert(queued.contains(Point { x: d.0, y: d.1 }));
                    }
                }
            }
        }
    }
    proof {
        assert(pending@.len() == 0);
        assert(cells(region).contains((p.x, p.y)));
        b@.lemma_region_within(p, cells(region));
        assert(cells(region) =~= b@.region(p));
    }
    region
}

/// Places `p` so that its first point lands on `target_pt`, if it fits there.
/// The result is the origin of the placement.
pub fn fit_at<'a>(b: &mut Board<'a>, p: &'a Polyomino, target_pt: Point) -> (origin: Option<Point>)
    requires
        old(b).wf(),
    ensures
        final(b).wf(),
        origin == old(b)@.fit_origin(p@, target_pt),
        origin matches Some(o) ==> {
            &&& final(b)@ == old(b)@.placed(p@, o)
            &&& final(b)@.at(target_pt.x as int, target_pt.y as int) == Cell::Full(p@, o)
            &&& o.x + p@[0].x == target_pt.x
            &&& o.y + p@[0].y == target_pt.y
        },
        origin is None ==> *final(b) == *old(b),
{
    if let Some(poly_pt) = p.get_nth(0) {
        if poly_pt.x <= target_pt.x && poly_pt.y <= target_pt.y {
            let o = Point::new(target_pt.x - poly_pt.x, target_pt.y - poly_pt.y);
            if b.add_polyomino(p, o) {
                proof {
                    old(b).lemma_wf();
                    assert(old(b)@.at(p@[0].x + o.x, p@[0].y + o.y) == Cell::Empty);
                    assert(Grid::covers(p@, o, target_pt.x as int, target_pt.y as int));
                }
                return Some(o);
            }
        }
    }
    None
}

/// Places `p` with its first point on the first `Empty` cell of the board,
/// if it fits there. The result is that cell.
pub fn fit<'a>(b: &mut Board<'a>, p: &'a Polyomino) -> (target: Option<Point>)
    requires
        old(b).wf(),
    ensures
        final(b).wf(),
        target == match old(b)@.first_unoccupied() {
            Some(t) => if old(b)@.fit_origin(p@, t) is Some {
                Some(t)
            } else {
                None
            },
            None => None,
        },
        target matches Some(t) ==> final(b)@ == old(b)@.placed(
            p@,
            old(b)@.fit_origin(p@, t).unwrap(),
        ),
        target is None ==> *final(b) == *old(b),
{
    if let Some(target_pt) = get_first_unoccupied(b) {
        if fit_at(b, p, target_pt).is_some() {
            return Some(target_pt);
        }
    }
    None
}

} // verus!
