//! Grid coordinates and their order.

use std::cmp::Ordering;
use vstd::prelude::*;
use vstd::std_specs::cmp::PartialOrdSpecImpl;

verus! {

/// A cell coordinate on the grid.
///
/// Points are ordered by `x` first and by `y` on a tie, so the smallest
/// point of a set is its leftmost one, and among those the lowest.
#[derive(Debug, Clone, Copy, PartialEq, Eq, Ord, Hash, Structural)]
pub struct Point {
    pub x: usize,
    pub y: usize,
}

impl Point {
    /// The strict order on points: `x` decides, `y` breaks a tie.
    pub open spec fn precedes(self, other: Point) -> bool {
        self.x < other.x || (self.x == other.x && self.y < other.y)
    }

    /// How `self` compares to `other` in the order of `precedes`.
    pub open spec fn compare(self, other: Point) -> Ordering {
        if self.precedes(other) {
            Ordering::Less
        } else if other.precedes(self) {
            Ordering::Greater
        } else {
            Ordering::Equal
        }
    }

    pub fn new(new_x: usize, new_y: usize) -> (p: Point)
        ensures
            p == (Point { x: new_x, y: new_y }),
    {
        Point { x: new_x, y: new_y }
    }

    /// The largest point of the order.
    pub fn max_point() -> (p: Point)
        ensures
            p == (Point { x: usize::MAX, y: usize::MAX }),
            forall|q: Point| !p.precedes(q),
    {
        Point { x: usize::MAX, y: usize::MAX }
    }

    /// The smallest point of the order.
    pub fn min_point() -> (p: Point)
        ensures
            p == (Point { x: 0, y: 0 }),
            forall|q: Point| !q.precedes(p),
    {
        Point { x: 0, y: 0 }
    }

    pub fn x(&self) -> (x: usize)
        ensures
            x == self.x,
    {
        self.x
    }

    pub fn y(&self) -> (y: usize)
        ensures
            y == self.y,
    {
        self.y
    }

    /// Whether `self` comes strictly before `other`.
    pub fn is_before(&self, other: &Point) -> (b: bool)
        ensures
            b == self.precedes(*other),
    {
        self.x < other.x || (self.x == other.x && self.y < other.y)
    }
}

impl PartialOrd for Point {
    fn partial_cmp(&self, other: &Point) -> (r: Option<Ordering>) {
        if self.x < other.x {
            Some(Ordering::Less)
        } else if self.x > other.x {
            Some(Ordering::Greater)
        } else if self.y < other.y {
            Some(Ordering::Less)
        } else if self.y > other.y {
            Some(Ordering::Greater)
        } else {
            Some(Ordering::Equal)
        }
    }
}

impl PartialOrdSpecImpl for Point {
    open spec fn obeys_partial_cmp_spec() -> bool {
        true
    }

    open spec fn partial_cmp_spec(&self, other: &Point) -> Option<Ordering> {
        Some(self.compare(*other))
    }
}

/// The order is strict: no point precedes itself, and of two points at most
/// one precedes the other.
pub proof fn lemma_order_strict(a: Point, b: Point)
    ensures
        !a.precedes(a),
        !(a.precedes(b) && b.precedes(a)),
{
}

/// The order is total: two distinct points are ordered one way or the other.
pub proof fn lemma_order_total(a: Point, b: Point)
    ensures
        a.precedes(b) || b.precedes(a) || a == b,
{
}

/// The order is transitive.
pub proof fn lemma_order_transitive(a: Point, b: Point, c: Point)
    requires
        a.precedes(b),
        b.precedes(c),
    ensures
        a.precedes(c),
{
}

/// `x` dominates `y`: a smaller `x` decides the comparison whatever `y` is.
pub proof fn lemma_x_dominates(a: Point, b: Point)
    requires
        a.x < b.x,
    ensures
        a.precedes(b),
        a.compare(b) == Ordering::Less,
{
}

} // verus!
