//! Shapes: canonical point lists, their quarter turns and mirror images.

use crate::fx::shape_set_drain;
use crate::fx::shape_set_insert;
use crate::fx::shape_set_new;
use crate::fx::shapes;
use crate::point::Point;
use crate::text::joined;
use crate::text::string_from_chars;
use rustc_hash::FxHashSet;
use std::slice::Iter;
use vstd::prelude::*;
use vstd::std_specs::slice::into_iter_elts;

pub mod symmetry;

verus! {

/// A point list is canonical when it is strictly increasing in the order of
/// points: sorted, and free of duplicates.
pub open spec fn is_canonical(s: Seq<Point>) -> bool {
    forall|i: int, j: int| 0 <= i < j < s.len() ==> s[i].precedes(s[j])
}

/// Two point lists hold the same points, whatever their order and
/// multiplicity.
pub open spec fn same_points(a: Seq<Point>, b: Seq<Point>) -> bool {
    forall|p: Point| a.contains(p) <==> b.contains(p)
}

/// `p` put at its place in the canonical list `s`; `s` itself where it
/// already holds `p`.
pub open spec fn insert_point(s: Seq<Point>, p: Point) -> Seq<Point>
    decreases s.len(),
{
    if s.len() == 0 {
        seq![p]
    } else if s.last().precedes(p) {
        s.push(p)
    } else if s.last() == p {
        s
    } else {
        insert_point(s.drop_last(), p).push(s.last())
    }
}

/// The canonical list of the points of `t`.
pub open spec fn canonical(t: Seq<Point>) -> Seq<Point>
    decreases t.len(),
{
    if t.len() == 0 {
        Seq::empty()
    } else {
        insert_point(canonical(t.drop_last()), t.last())
    }
}

/// The largest `x` among the points of `s`, 0 for the empty list.
pub open spec fn max_x(s: Seq<Point>) -> usize
    decreases s.len(),
{
    if s.len() == 0 {
        0
    } else if s.last().x > max_x(s.drop_last()) {
        s.last().x
    } else {
        max_x(s.drop_last())
    }
}

/// The largest `y` among the points of `s`, 0 for the empty list.
pub open spec fn max_y(s: Seq<Point>) -> usize
    decreases s.len(),
{
    if s.len() == 0 {
        0
    } else if s.last().y > max_y(s.drop_last()) {
        s.last().y
    } else {
        max_y(s.drop_last())
    }
}

/// Where a quarter turn inside a box of height `h` takes `p`.
pub open spec fn rotate_point(p: Point, h: usize) -> Point {
    Point { x: (h - p.y) as usize, y: p.x }
}

/// Where a mirror image inside a box of width `w` takes `p`.
pub open spec fn flip_point(p: Point, w: usize) -> Point {
    Point { x: (w - p.x) as usize, y: p.y }
}

/// The shape `s` after a quarter turn inside its own bounding box.
pub open spec fn rotated(s: Seq<Point>) -> Seq<Point> {
    canonical(s.map_values(|p: Point| rotate_point(p, max_y(s))))
}

/// The mirror image of the shape `s` inside its own bounding box.
pub open spec fn flipped(s: Seq<Point>) -> Seq<Point> {
    canonical(s.map_values(|p: Point| flip_point(p, max_x(s))))
}

/// The picture of a shape: a line for every `y` of its bounding box, the
/// largest first, with an `X` for every point and a space for every other
/// place of the box.
pub open spec fn picture(s: Seq<Point>) -> Seq<char> {
    joined(|row: int| picture_row(s, row), max_y(s) + 1)
}

/// Line `row` of the picture of a shape.
pub open spec fn picture_row(s: Seq<Point>, row: int) -> Seq<char> {
    joined(|x: int| picture_cell(s, x, max_y(s) - row), max_x(s) + 1) + seq!['\n']
}

/// The character for place `(x, y)` in the picture of a shape.
pub open spec fn picture_cell(s: Seq<Point>, x: int, y: int) -> Seq<char> {
    if exists|i: int| 0 <= i < s.len() && (#[trigger] s[i]).x == x && s[i].y == y {
        seq!['X']
    } else {
        seq![' ']
    }
}

/// The coordinates of a point list.
pub open spec fn coordinates(s: Seq<Point>) -> Seq<(usize, usize)> {
    s.map_values(|p: Point| (p.x, p.y))
}

/// The point list of a list of coordinates.
pub open spec fn points_of(c: Seq<(usize, usize)>) -> Seq<Point> {
    c.map_values(|xy: (usize, usize)| Point { x: xy.0, y: xy.1 })
}

/// The eight images of `s` under quarter turns and the mirror image: `s`
/// and its three turns, then its mirror image and the three turns of that.
pub open spec fn images(s: Seq<Point>) -> Seq<Seq<Point>> {
    seq![
        s,
        rotated(s),
        rotated(rotated(s)),
        rotated(rotated(rotated(s))),
        flipped(s),
        rotated(flipped(s)),
        rotated(rotated(flipped(s))),
        rotated(rotated(rotated(flipped(s)))),
    ]
}

/// The set of the images of `s`, each as the list of its coordinates.
pub open spec fn image_set(s: Seq<Point>) -> Set<Seq<(usize, usize)>> {
    Set::new(
        |c: Seq<(usize, usize)>|
            exists|k: int| 0 <= k < 8 && c == coordinates(#[trigger] images(s)[k]),
    )
}

/// A turned shape is canonical.
pub proof fn lemma_rotated_canonical(s: Seq<Point>)
    ensures
        is_canonical(rotated(s)),
{
    lemma_canonical(s.map_values(|p: Point| rotate_point(p, max_y(s))));
}

/// A mirrored shape is canonical.
pub proof fn lemma_flipped_canonical(s: Seq<Point>)
    ensures
        is_canonical(flipped(s)),
{
    lemma_canonical(s.map_values(|p: Point| flip_point(p, max_x(s))));
}

/// `list` holds every image of `s`, each of them once, and nothing else.
pub open spec fn is_variation_list(list: Seq<Seq<Point>>, s: Seq<Point>) -> bool {
    &&& list.no_duplicates()
    &&& forall|t: Seq<Point>| list.contains(t) <==> images(s).contains(t)
}

/// A list of variations has between one and eight shapes.
pub proof fn lemma_variation_count(list: Seq<Seq<Point>>, s: Seq<Point>)
    requires
        is_variation_list(list, s),
    ensures
        1 <= list.len() <= 8,
{
    assert(images(s)[0] == s);
    assert(list.contains(s));
    list.unique_seq_to_set();
    images(s).lemma_cardinality_of_set();
    assert(list.to_set().subset_of(images(s).to_set())) by {
        assert forall|t: Seq<Point>| list.to_set().contains(t) implies images(s).to_set().contains(
            t,
        ) by {
            assert(list.contains(t));
        }
    }
    vstd::set_lib::lemma_len_subset(list.to_set(), images(s).to_set());
}

/// `insert_point` keeps a list canonical and adds exactly `p` to its points.
pub proof fn lemma_insert_point(s: Seq<Point>, p: Point)
    requires
        is_canonical(s),
    ensures
        is_canonical(insert_point(s, p)),
        forall|q: Point|
            #[trigger] insert_point(s, p).contains(q) <==> (s.contains(q) || q == p),
    decreases s.len(),
{
    let r = insert_point(s, p);
    let n = s.len() as int;
    if n == 0 {
        assert(r[0] == p);
    } else if s[n - 1].precedes(p) {
        assert(r == s.push(p));
        assert(r[n] == p);
        assert forall|i: int, j: int| 0 <= i < j < r.len() implies r[i].precedes(r[j]) by {
            if j == n && i < n - 1 {
                assert(s[i].precedes(s[n - 1]));
            }
        }
        assert forall|q: Point| #[trigger] r.contains(q) <==> (s.contains(q) || q == p) by {
            if r.contains(q) {
                let k = choose|k: int| 0 <= k < r.len() && r[k] == q;
                if k < n {
                    assert(s[k] == q);
                }
            }
            if s.contains(q) {
                let k = choose|k: int| 0 <= k < s.len() && s[k] == q;
                assert(r[k] == q);
            }
        }
    } else if s[n - 1] == p {
        assert(r == s);
        assert(s.contains(p));
    } else {
        let head = s.drop_last();
        let last = s[n - 1];
        lemma_insert_point(head, p);
        let mid = insert_point(head, p);
        assert(r == mid.push(last));
        assert(p.precedes(last));
        assert forall|i: int| 0 <= i < mid.len() implies (#[trigger] mid[i]).precedes(last) by {
            let q = mid[i];
            assert(mid.contains(q));
            assert(head.contains(q) || q == p);
            if head.contains(q) {
                let k = choose|k: int| 0 <= k < head.len() && head[k] == q;
                assert(s[k].precedes(s[n - 1]));
            }
        }
        assert forall|i: int, j: int| 0 <= i < j < r.len() implies r[i].precedes(r[j]) by {
            if j < mid.len() {
                assert(mid[i].precedes(mid[j]));
            } else {
                assert(r[i] == mid[i]);
                assert(r[j] == last);
            }
        }
        assert forall|q: Point| #[trigger] r.contains(q) <==> (s.contains(q) || q == p) by {
            assert(mid.contains(q) <==> (head.contains(q) || q == p));
            if r.contains(q) {
                let k = choose|k: int| 0 <= k < r.len() && r[k] == q;
                if k < mid.len() {
                    assert(mid[k] == q);
                    assert(mid.contains(q));
                    if head.contains(q) {
                        let m = choose|m: int| 0 <= m < head.len() && head[m] == q;
                        assert(s[m] == q);
                    }
                } else {
                    assert(s[n - 1] == q);
                }
            }
            if s.contains(q) {
                let k = choose|k: int| 0 <= k < s.len() && s[k] == q;
                if k < n - 1 {
                    assert(head[k] == q);
                    assert(head.contains(q));
                }
            }
            if q == last {
                assert(r[mid.len() as int] == q);
            } else if mid.contains(q) {
                let k = choose|k: int| 0 <= k < mid.len() && mid[k] == q;
                assert(r[k] == q);
            }
        }
    }
}

/// `canonical(t)` is canonical and holds exactly the points of `t`.
pub proof fn lemma_canonical(t: Seq<Point>)
    ensures
        is_canonical(canonical(t)),
        same_points(canonical(t), t),
    decreases t.len(),
{
    if t.len() > 0 {
        let head = t.drop_last();
        lemma_canonical(head);
        lemma_insert_point(canonical(head), t.last());
        let r = canonical(t);
        assert forall|q: Point| r.contains(q) <==> t.contains(q) by {
            if t.contains(q) {
                let k = choose|k: int| 0 <= k < t.len() && t[k] == q;
                if k < head.len() {
                    assert(head[k] == q);
                    assert(head.contains(q));
                }
            }
            if head.contains(q) {
                let k = choose|k: int| 0 <= k < head.len() && head[k] == q;
                assert(t[k] == q);
            }
            if q == t.last() {
                assert(t[t.len() - 1] == q);
            }
        }
    }
}

/// A set of points has one canonical list only.
pub proof fn lemma_canonical_unique(a: Seq<Point>, b: Seq<Point>)
    requires
        is_canonical(a),
        is_canonical(b),
        same_points(a, b),
    ensures
        a == b,
    decreases a.len(),
{
    if a.len() == 0 {
        if b.len() > 0 {
            assert(b.contains(b[0]));
        }
        assert(a =~= b);
    } else {
        let na = a.len() as int;
        assert(a.contains(a[na - 1]));
        assert(b.contains(a[na - 1]));
        let j = choose|j: int| 0 <= j < b.len() && b[j] == a[na - 1];
        let nb = b.len() as int;
        assert(b.contains(b[nb - 1]));
        assert(a.contains(b[nb - 1]));
        let i = choose|i: int| 0 <= i < a.len() && a[i] == b[nb - 1];
        if j < nb - 1 {
            assert(b[j].precedes(b[nb - 1]));
        }
        if i < na - 1 {
            assert(a[i].precedes(a[na - 1]));
        }
        assert(a.last() == b.last());
        let a0 = a.drop_last();
        let b0 = b.drop_last();
        assert forall|q: Point| a0.contains(q) <==> b0.contains(q) by {
            if a0.contains(q) {
                let k = choose|k: int| 0 <= k < a0.len() && a0[k] == q;
                assert(a[k] == q);
                assert(a.contains(q));
                let m = choose|m: int| 0 <= m < b.len() && b[m] == q;
                assert(a[k].precedes(a[a.len() - 1]));
                assert(b0[m] == q);
            }
            if b0.contains(q) {
                let k = choose|k: int| 0 <= k < b0.len() && b0[k] == q;
                assert(b[k] == q);
                assert(b.contains(q));
                let m = choose|m: int| 0 <= m < a.len() && a[m] == q;
                assert(b[k].precedes(b[b.len() - 1]));
                assert(a0[m] == q);
            }
        }
        lemma_canonical_unique(a0, b0);
        assert(a =~= a0.push(a.last()));
        assert(b =~= b0.push(b.last()));
    }
}

/// A canonical list is its own canonical list.
pub proof fn lemma_canonical_fixed(s: Seq<Point>)
    requires
        is_canonical(s),
    ensures
        canonical(s) == s,
{
    lemma_canonical(s);
    lemma_canonical_unique(canonical(s), s);
}

/// `max_x(s)` bounds every `x` of `s`, and some point reaches it.
pub proof fn lemma_max_x(s: Seq<Point>)
    ensures
        forall|i: int| 0 <= i < s.len() ==> (#[trigger] s[i]).x <= max_x(s),
        s.len() > 0 ==> exists|i: int| 0 <= i < s.len() && (#[trigger] s[i]).x == max_x(s),
    decreases s.len(),
{
    if s.len() > 0 {
        let head = s.drop_last();
        lemma_max_x(head);
        assert forall|i: int| 0 <= i < s.len() implies (#[trigger] s[i]).x <= max_x(s) by {
            if i < head.len() {
                assert(head[i].x <= max_x(head));
            }
        }
        if s.last().x > max_x(head) || head.len() == 0 {
            assert(s[s.len() - 1].x == max_x(s));
        } else {
            let k = choose|k: int| 0 <= k < head.len() && (#[trigger] head[k]).x == max_x(head);
            assert(s[k].x == max_x(s));
        }
    }
}

/// `max_y(s)` bounds every `y` of `s`, and some point reaches it.
pub proof fn lemma_max_y(s: Seq<Point>)
    ensures
        forall|i: int| 0 <= i < s.len() ==> (#[trigger] s[i]).y <= max_y(s),
        s.len() > 0 ==> exists|i: int| 0 <= i < s.len() && (#[trigger] s[i]).y == max_y(s),
    decreases s.len(),
{
    if s.len() > 0 {
        let head = s.drop_last();
        lemma_max_y(head);
        assert forall|i: int| 0 <= i < s.len() implies (#[trigger] s[i]).y <= max_y(s) by {
            if i < head.len() {
                assert(head[i].y <= max_y(head));
            }
        }
        if s.last().y > max_y(head) || head.len() == 0 {
            assert(s[s.len() - 1].y == max_y(s));
        } else {
            let k = choose|k: int| 0 <= k < head.len() && (#[trigger] head[k]).y == max_y(head);
            assert(s[k].y == max_y(s));
        }
    }
}

/// One piece: a set of cells, held as the canonical list of its points.
///
/// Two shapes are equal exactly when their point lists are.
#[derive(Debug, PartialEq, Eq, Hash)]
pub struct Polyomino {
    points: Vec<Point>,
}

impl Clone for Polyomino {
    fn clone(&self) -> (r: Polyomino)
        ensures
            r@ == self@,
    {
        proof {
            use_type_invariant(self);
        }
        let mut points: Vec<Point> = Vec::new();
        let mut k: usize = 0;
        while k < self.points.len()
            invariant
                k <= self.points.len(),
                points@ == self.points@.take(k as int),
            decreases self.points.len() - k,
        {
            points.push(self.points[k]);
            proof {
                assert(self.points@.take(k + 1) =~= self.points@.take(k as int).push(
                    self.points@[k as int],
                ));
            }
            k += 1;
        }
        proof {
            assert(self.points@.take(k as int) =~= self.points@);
        }
        Polyomino { points }
    }
}

impl View for Polyomino {
    type V = Seq<Point>;

    closed spec fn view(&self) -> Seq<Point> {
        self.points@
    }
}

impl DeepView for Polyomino {
    type V = Seq<Point>;

    open spec fn deep_view(&self) -> Seq<Point> {
        self@
    }
}

/// Puts `p` at its place in the canonical vector `v`, unless it is there.
fn insert_sorted(v: &mut Vec<Point>, p: Point)
    requires
        is_canonical(old(v)@),
    ensures
        final(v)@ == insert_point(old(v)@, p),
{
    let ghost before = v@;
    let mut i: usize = 0;
    while i < v.len() && v[i].is_before(&p)
        invariant
            i <= v.len(),
            v@ == before,
            forall|k: int| 0 <= k < i ==> (#[trigger] v@[k]).precedes(p),
        decreases v.len() - i,
    {
        i += 1;
    }
    let present = i < v.len() && v[i] == p;
    if !present {
        v.insert(i, p);
    }
    proof {
        lemma_insert_point(before, p);
        let after = v@;
        if present {
            assert(before.contains(p));
        } else {
            assert(after[i as int] == p);
            assert forall|a: int, b: int| 0 <= a < b < after.len() implies after[a].precedes(
                after[b],
            ) by {
                if b == i {
                    assert(after[a] == before[a]);
                } else if a == i {
                    assert(after[b] == before[b - 1]);
                    assert(!before[i as int].precedes(p));
                    if b - 1 > i {
                        assert(before[i as int].precedes(before[b - 1]));
                    }
                } else {
                    let a0 = if a < i { a } else { a - 1 };
                    let b0 = if b < i { b } else { b - 1 };
                    assert(after[a] == before[a0]);
                    assert(after[b] == before[b0]);
                }
            }
            assert forall|q: Point| after.contains(q) <==> (before.contains(q) || q == p) by {
                if after.contains(q) {
                    let k = choose|k: int| 0 <= k < after.len() && after[k] == q;
                    if k < i {
                        assert(before[k] == q);
                    } else if k > i {
                        assert(before[k - 1] == q);
                    }
                }
                if before.contains(q) {
                    let k = choose|k: int| 0 <= k < before.len() && before[k] == q;
                    if k < i {
                        assert(after[k] == q);
                    } else {
                        assert(after[k + 1] == q);
                    }
                }
            }
        }
        assert(same_points(after, insert_point(before, p))) by {
            assert forall|q: Point| after.contains(q) <==> insert_point(before, p).contains(q) by {
                if present && q == p {
                    assert(before.contains(p));
                }
            }
        }
        lemma_canonical_unique(after, insert_point(before, p));
    }
}

impl Polyomino {
    #[verifier::type_invariant]
    spec fn well_formed(self) -> bool {
        is_canonical(self.points@)
    }

    /// The shape made of the given points, in any order and with repeats.
    pub fn new(p: Vec<Point>) -> (r: Polyomino)
        ensures
            r@ == canonical(p@),
            is_canonical(r@),
            same_points(r@, p@),
    {
        let mut sorted: Vec<Point> = Vec::new();
        let mut k: usize = 0;
        while k < p.len()
            invariant
                k <= p.len(),
                sorted@ == canonical(p@.take(k as int)),
            decreases p.len() - k,
        {
            proof {
                lemma_canonical(p@.take(k as int));
                assert(p@.take(k + 1).drop_last() =~= p@.take(k as int));
            }
            insert_sorted(&mut sorted, p[k]);
            k += 1;
        }
        proof {
            assert(p@.take(k as int) =~= p@);
            lemma_canonical(p@);
        }
        Polyomino { points: sorted }
    }

    /// The number of cells.
    pub fn len(&self) -> (n: usize)
        ensures
            n == self@.len(),
    {
        self.points.len()
    }

    /// The `nth` point in canonical order, if there are that many.
    pub fn get_nth(&self, nth: usize) -> (p: Option<&Point>)
        ensures
            nth < self@.len() ==> p == Some(&self@[nth as int]),
            nth >= self@.len() ==> p is None,
    {
        if nth < self.points.len() {
            Some(&self.points[nth])
        } else {
            None
        }
    }

    /// The points in canonical order.
    pub fn points(&self) -> (points: &Vec<Point>)
        ensures
            points@ == self@,
            is_canonical(self@),
    {
        proof {
            use_type_invariant(self);
        }
        &self.points
    }

    /// An iterator over the points in canonical order.
    pub fn iter(&self) -> (points: Iter<'_, Point>)
        ensures
            into_iter_elts(points) == self@,
    {
        broadcast use vstd::std_specs::slice::axiom_spec_slice_iter;

        let points = self.points.as_slice().iter();
        proof {
            assert(into_iter_elts(points) =~= self@);
        }
        points
    }

    /// The componentwise maximum of the points: the top right corner of the
    /// bounding box, which need not be a cell of the shape.
    pub fn bbox_top_right(&self) -> (corner: Point)
        ensures
            corner == (Point { x: max_x(self@), y: max_y(self@) }),
    {
        let mut corner = Point::min_point();
        let mut k: usize = 0;
        while k < self.points.len()
            invariant
                k <= self.points.len(),
                corner.x == max_x(self.points@.take(k as int)),
                corner.y == max_y(self.points@.take(k as int)),
            decreases self.points.len() - k,
        {
            proof {
                assert(self.points@.take(k + 1).drop_last() =~= self.points@.take(k as int));
            }
            let p = self.points[k];
            if p.x > corner.x {
                corner.x = p.x;
            }
            if p.y > corner.y {
                corner.y = p.y;
            }
            k += 1;
        }
        proof {
            assert(self.points@.take(k as int) =~= self.points@);
        }
        corner
    }

    /// The shape after a quarter turn: `(x, y)` goes to `(h - y, x)`, where
    /// `h` is the largest `y` of the shape.
    pub fn rotate(&self) -> (r: Polyomino)
        ensures
            r@ == rotated(self@),
            is_canonical(r@),
    {
        let height = self.bbox_top_right().y;
        let ghost turn = |p: Point| rotate_point(p, max_y(self@));
        let mut turned: Vec<Point> = Vec::new();
        let mut k: usize = 0;
        while k < self.points.len()
            invariant
                k <= self.points.len(),
                height == max_y(self@),
                turn == (|p: Point| rotate_point(p, max_y(self@))),
                turned@ == self.points@.take(k as int).map_values(turn),
            decreases self.points.len() - k,
        {
            let p = self.points[k];
            proof {
                lemma_max_y(self@);
                assert(self.points@.take(k + 1).map_values(turn) =~= self.points@.take(
                    k as int,
                ).map_values(turn).push(turn(p)));
            }
            turned.push(Point::new(height - p.y, p.x));
            k += 1;
        }
        proof {
            assert(self.points@.take(k as int) =~= self.points@);
        }
        Polyomino::new(turned)
    }

    /// The mirror image of the shape: `(x, y)` goes to `(w - x, y)`, where
    /// `w` is the largest `x` of the shape.
    pub fn flip(&self) -> (r: Polyomino)
        ensures
            r@ == flipped(self@),
            is_canonical(r@),
    {
        let width = self.bbox_top_right().x;
        let ghost mirror = |p: Point| flip_point(p, max_x(self@));
        let mut mirrored: Vec<Point> = Vec::new();
        let mut k: usize = 0;
        while k < self.points.len()
            invariant
                k <= self.points.len(),
                width == max_x(self@),
                mirror == (|p: Point| flip_point(p, max_x(self@))),
                mirrored@ == self.points@.take(k as int).map_values(mirror),
            decreases self.points.len() - k,
        {
            let p = self.points[k];
            proof {
                lemma_max_x(self@);
                assert(self.points@.take(k + 1).map_values(mirror) =~= self.points@.take(
                    k as int,
                ).map_values(mirror).push(mirror(p)));
            }
            mirrored.push(Point::new(width - p.x, p.y));
            k += 1;
        }
        proof {
            assert(self.points@.take(k as int) =~= self.points@);
        }
        Polyomino::new(mirrored)
    }

    /// Whether the two shapes have the same points.
    pub fn same_as(&self, other: &Polyomino) -> (same: bool)
        ensures
            same == (self@ == other@),
    {
        if self.points.len() != other.points.len() {
            return false;
        }
        let mut k: usize = 0;
        while k < self.points.len()
            invariant
                k <= self.points.len(),
                self.points.len() == other.points.len(),
                forall|i: int| 0 <= i < k ==> self.points@[i] == other.points@[i],
            decreases self.points.len() - k,
        {
            if self.points[k] != other.points[k] {
                return false;
            }
            k += 1;
        }
        proof {
            assert(self@ =~= other@);
        }
        true
    }

    /// Whether `(x, y)` is a point of the shape.
    pub fn contains(&self, x: usize, y: usize) -> (found: bool)
        ensures
            found == exists|i: int|
                0 <= i < self@.len() && (#[trigger] self@[i]).x == x && self@[i].y == y,
    {
        let mut k: usize = 0;
        while k < self.points.len()
            invariant
                k <= self.points.len(),
                forall|i: int|
                    0 <= i < k ==> !((#[trigger] self.points@[i]).x == x && self.points@[i].y == y),
            decreases self.points.len() - k,
        {
            if self.points[k].x == x && self.points[k].y == y {
                proof {
                    assert(self@[k as int].x == x && self@[k as int].y == y);
                }
                return true;
            }
            k += 1;
        }
        false
    }

    /// The picture of the shape, as text.
    pub fn render(&self) -> (text: String)
        ensures
            text@ == picture(self@),
    {
        let corner = self.bbox_top_right();
        let width = corner.x;
        let height = corner.y;
        let mut out: Vec<char> = Vec::new();
        let mut y: usize = 0;
        loop
            invariant_except_break
                y <= height,
                out@ == joined(|row: int| picture_row(self@, row), y as int),
            invariant
                width == max_x(self@),
                height == max_y(self@),
            ensures
                out@ == joined(|row: int| picture_row(self@, row), height + 1),
            decreases height - y,
        {
            let ghost above = out@;
            let mut x: usize = 0;
            proof {
                assert(above + joined(
                    |x: int| picture_cell(self@, x, max_y(self@) - y),
                    0,
                ) =~= above);
            }
            loop
                invariant_except_break
                    x <= width,
                    out@ == above + joined(
                        |x: int| picture_cell(self@, x, max_y(self@) - y),
                        x as int,
                    ),
                invariant
                    y <= height,
                    width == max_x(self@),
                    height == max_y(self@),
                ensures
                    out@ == above + joined(
                        |x: int| picture_cell(self@, x, max_y(self@) - y),
                        width + 1,
                    ),
                decreases width - x,
            {
                let ghost before = out@;
                if self.contains(x, height - y) {
                    out.push('X');
                } else {
                    out.push(' ');
                }
                proof {
                    let cell = |x: int| picture_cell(self@, x, max_y(self@) - y);
                    assert(out@ =~= before + cell(x as int));
                    assert(above + joined(cell, x + 1) =~= (above + joined(cell, x as int)) + cell(
                        x as int,
                    ));
                }
                if x == width {
                    break;
                }
                x += 1;
            }
            out.push('\n');
            proof {
                let row = |row: int| picture_row(self@, row);
                assert(out@ =~= above + row(y as int));
                assert(joined(row, y + 1) == joined(row, y as int) + row(y as int));
            }
            if y == height {
                break;
            }
            y += 1;
        }
        string_from_chars(&out)
    }

    /// The coordinates of the points, in canonical order.
    fn to_coordinates(&self) -> (c: Vec<(usize, usize)>)
        ensures
            c@ == coordinates(self@),
    {
        let mut c: Vec<(usize, usize)> = Vec::new();
        let mut k: usize = 0;
        while k < self.points.len()
            invariant
                k <= self.points.len(),
                c@ == coordinates(self.points@.take(k as int)),
            decreases self.points.len() - k,
        {
            let p = self.points[k];
            proof {
                assert(coordinates(self.points@.take(k + 1)) =~= coordinates(
                    self.points@.take(k as int),
                ).push((p.x, p.y)));
            }
            c.push((p.x, p.y));
            k += 1;
        }
        proof {
            assert(self.points@.take(k as int) =~= self.points@);
        }
        c
    }

    /// The shape whose canonical point list has the coordinates `c`.
    fn from_coordinates(c: &Vec<(usize, usize)>) -> (r: Polyomino)
        requires
            is_canonical(points_of(c@)),
        ensures
            r@ == points_of(c@),
    {
        let mut points: Vec<Point> = Vec::new();
        let mut k: usize = 0;
        while k < c.len()
            invariant
                k <= c.len(),
                points@ == points_of(c@.take(k as int)),
            decreases c.len() - k,
        {
            let xy = c[k];
            proof {
                assert(points_of(c@.take(k + 1)) =~= points_of(c@.take(k as int)).push(
                    Point { x: xy.0, y: xy.1 },
                ));
            }
            points.push(Point::new(xy.0, xy.1));
            k += 1;
        }
        proof {
            assert(c@.take(k as int) =~= c@);
        }
        Polyomino { points }
    }

    /// The set of the images of the shape under quarter turns and the mirror
    /// image, each as the list of its coordinates.
    pub fn make_variations(&self) -> (res: FxHashSet<Vec<(usize, usize)>>)
        ensures
            shapes(res) == image_set(self@),
    {
        let mut res = shape_set_new();
        let r1 = self.rotate();
        let r2 = r1.rotate();
        let r3 = r2.rotate();
        let f0 = self.flip();
        let f1 = f0.rotate();
        let f2 = f1.rotate();
        let f3 = f2.rotate();
        shape_set_insert(&mut res, self.to_coordinates());
        shape_set_insert(&mut res, r1.to_coordinates());
        shape_set_insert(&mut res, r2.to_coordinates());
        shape_set_insert(&mut res, r3.to_coordinates());
        shape_set_insert(&mut res, f0.to_coordinates());
        shape_set_insert(&mut res, f1.to_coordinates());
        shape_set_insert(&mut res, f2.to_coordinates());
        shape_set_insert(&mut res, f3.to_coordinates());
        proof {
            let all = images(self@);
            assert forall|c: Seq<(usize, usize)>| shapes(res).contains(c) <==> image_set(
                self@,
            ).contains(c) by {
                if shapes(res).contains(c) {
                    let k = if c == coordinates(all[0]) {
                        0
                    } else if c == coordinates(all[1]) {
                        1
                    } else if c == coordinates(all[2]) {
                        2
                    } else if c == coordinates(all[3]) {
                        3
                    } else if c == coordinates(all[4]) {
                        4
                    } else if c == coordinates(all[5]) {
                        5
                    } else if c == coordinates(all[6]) {
                        6
                    } else {
                        7int
                    };
                    assert(c == coordinates(all[k]));
                }
            }
            assert(shapes(res) =~= image_set(self@));
        }
        res
    }

    /// The distinct images of the shape under quarter turns and the mirror
    /// image, in an order that is not specified.
    pub fn make_all_variations(&self) -> (variations: Vec<Polyomino>)
        ensures
            is_variation_list(variations.deep_view(), self@),
            1 <= variations.len() <= 8,
            symmetry::is_anchored(self@) ==> variations.len() == 1 || variations.len() == 2
                || variations.len() == 4 || variations.len() == 8,
    {
        proof {
            use_type_invariant(self);
        }
        let mut res = self.make_variations();
        let ghost all = images(self@);
        let ghost held = shapes(res);
        proof {
            assert forall|c: Seq<(usize, usize)>| held.contains(c) <==> exists|k: int|
                0 <= k < 8 && c == coordinates(#[trigger] all[k]) by {
                assert(held.contains(c) <==> image_set(self@).contains(c));
            }
            lemma_rotated_canonical(self@);
            lemma_rotated_canonical(all[1]);
            lemma_rotated_canonical(all[2]);
            lemma_flipped_canonical(self@);
            lemma_rotated_canonical(all[4]);
            lemma_rotated_canonical(all[5]);
            lemma_rotated_canonical(all[6]);
            assert forall|k: int| 0 <= k < 8 implies is_canonical(#[trigger] all[k]) by {}
        }
        let plain = shape_set_drain(&mut res);
        let mut variations: Vec<Polyomino> = Vec::new();
        let mut i: usize = 0;
        while i < plain.len()
            invariant
                i <= plain.len(),
                variations.len() == i,
                all == images(self@),
                forall|k: int| 0 <= k < 8 ==> is_canonical(#[trigger] all[k]),
                forall|c: Seq<(usize, usize)>|
                    held.contains(c) <==> exists|k: int|
                        0 <= k < 8 && c == coordinates(#[trigger] all[k]),
                forall|c: Seq<(usize, usize)>|
                    held.contains(c) <==> exists|j: int|
                        0 <= j < plain@.len() && (#[trigger] plain@[j])@ == c,
                forall|j: int| 0 <= j < i ==> (#[trigger] variations@[j])@ == points_of(plain@[j]@),
            decreases plain.len() - i,
        {
            proof {
                let c = plain@[i as int]@;
                assert(held.contains(c));
                let k = choose|k: int| 0 <= k < 8 && c == coordinates(#[trigger] all[k]);
                lemma_points_of_coordinates(all[k]);
            }
            let shape = Polyomino::from_coordinates(&plain[i]);
            variations.push(shape);
            i += 1;
        }
        proof {
            let list = variations.deep_view();
            assert forall|a: int, b: int| 0 <= a < b < list.len() implies list[a] != list[b] by {
                lemma_coordinates_of_points(plain@[a]@);
                lemma_coordinates_of_points(plain@[b]@);
            }
            assert forall|t: Seq<Point>| list.contains(t) <==> all.contains(t) by {
                if list.contains(t) {
                    let j = choose|j: int| 0 <= j < list.len() && list[j] == t;
                    let c = plain@[j]@;
                    assert(held.contains(c));
                    let k = choose|k: int| 0 <= k < 8 && c == coordinates(#[trigger] all[k]);
                    lemma_points_of_coordinates(all[k]);
                    assert(all[k] == t);
                }
                if all.contains(t) {
                    let k = choose|k: int| 0 <= k < all.len() && all[k] == t;
                    let c = coordinates(all[k]);
                    assert(held.contains(c));
                    let j = choose|j: int| 0 <= j < plain@.len() && (#[trigger] plain@[j])@ == c;
                    lemma_points_of_coordinates(t);
                    assert(list[j] == t);
                }
            }
            lemma_variation_count(list, self@);
            if symmetry::is_anchored(self@) {
                symmetry::lemma_variation_count_divides_eight(list, self@);
            }
        }
        variations
    }
}

/// A point list is the point list of its coordinates.
pub proof fn lemma_points_of_coordinates(s: Seq<Point>)
    ensures
        points_of(coordinates(s)) == s,
{
    assert(points_of(coordinates(s)) =~= s);
}

/// A list of coordinates is that of its point list.
pub proof fn lemma_coordinates_of_points(c: Seq<(usize, usize)>)
    ensures
        coordinates(points_of(c)) == c,
{
    assert(coordinates(points_of(c)) =~= c);
}

} // verus!
