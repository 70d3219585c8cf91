//! What quarter turns and mirror images do to a shape that lies against
//! both axes.

use crate::point::Point;
use crate::polyomino::canonical;
use crate::polyomino::flip_point;
use crate::polyomino::flipped;
use crate::polyomino::images;
use crate::polyomino::is_canonical;
use crate::polyomino::is_variation_list;
use crate::polyomino::lemma_canonical;
use crate::polyomino::lemma_canonical_unique;
use crate::polyomino::lemma_max_x;
use crate::polyomino::lemma_max_y;
use crate::polyomino::max_x;
use crate::polyomino::max_y;
use crate::polyomino::rotate_point;
use crate::polyomino::rotated;
use crate::polyomino::same_points;
use vstd::prelude::*;

verus! {

/// Some point of `s` lies on the `y` axis.
pub open spec fn reaches_left(s: Seq<Point>) -> bool {
    exists|i: int| 0 <= i < s.len() && (#[trigger] s[i]).x == 0
}

/// Some point of `s` lies on the `x` axis.
pub open spec fn reaches_bottom(s: Seq<Point>) -> bool {
    exists|i: int| 0 <= i < s.len() && (#[trigger] s[i]).y == 0
}

/// `s` lies against both axes, or has no point at all.
pub open spec fn is_anchored(s: Seq<Point>) -> bool {
    s.len() == 0 || (reaches_left(s) && reaches_bottom(s))
}

/// `m` is the largest `x` of `s` if it bounds every `x` and some point
/// reaches it.
proof fn lemma_max_x_is(s: Seq<Point>, top: Point)
    requires
        s.contains(top),
        forall|p: Point| s.contains(p) ==> p.x <= top.x,
    ensures
        max_x(s) == top.x,
{
    lemma_max_x(s);
    let k = choose|k: int| 0 <= k < s.len() && (#[trigger] s[k]).x == max_x(s);
    assert(s.contains(s[k]));
    let j = choose|j: int| 0 <= j < s.len() && s[j] == top;
    assert(s[j].x <= max_x(s));
}

proof fn lemma_max_y_is(s: Seq<Point>, top: Point)
    requires
        s.contains(top),
        forall|p: Point| s.contains(p) ==> p.y <= top.y,
    ensures
        max_y(s) == top.y,
{
    lemma_max_y(s);
    let k = choose|k: int| 0 <= k < s.len() && (#[trigger] s[k]).y == max_y(s);
    assert(s.contains(s[k]));
    let j = choose|j: int| 0 <= j < s.len() && s[j] == top;
    assert(s[j].y <= max_y(s));
}

/// The points of a turned shape: `q` is one exactly when the point that a
/// quarter turn takes to `q` is a point of the shape.
pub proof fn lemma_rotated_points(s: Seq<Point>)
    ensures
        is_canonical(rotated(s)),
        forall|q: Point|
            #[trigger] rotated(s).contains(q) <==> (q.x <= max_y(s) && s.contains(
                Point { x: q.y, y: (max_y(s) - q.x) as usize },
            )),
{
    let h = max_y(s);
    let turn = |p: Point| rotate_point(p, max_y(s));
    let m = s.map_values(turn);
    lemma_canonical(m);
    lemma_max_y(s);
    assert forall|q: Point| #[trigger]
        rotated(s).contains(q) <==> (q.x <= h && s.contains(
            Point { x: q.y, y: (h - q.x) as usize },
        )) by {
        assert(rotated(s).contains(q) <==> m.contains(q));
        if m.contains(q) {
            let i = choose|i: int| 0 <= i < m.len() && m[i] == q;
            assert(s[i].y <= h);
            assert(s[i] == Point { x: q.y, y: (h - q.x) as usize });
        }
        let back = Point { x: q.y, y: (h - q.x) as usize };
        if q.x <= h && s.contains(back) {
            let i = choose|i: int| 0 <= i < s.len() && s[i] == back;
            assert(m[i] == q);
        }
    }
}

/// The points of a mirrored shape: `q` is one exactly when the point that
/// the mirror takes to `q` is a point of the shape.
pub proof fn lemma_flipped_points(s: Seq<Point>)
    ensures
        is_canonical(flipped(s)),
        forall|q: Point|
            #[trigger] flipped(s).contains(q) <==> (q.x <= max_x(s) && s.contains(
                Point { x: (max_x(s) - q.x) as usize, y: q.y },
            )),
{
    let w = max_x(s);
    let mirror = |p: Point| flip_point(p, max_x(s));
    let m = s.map_values(mirror);
    lemma_canonical(m);
    lemma_max_x(s);
    assert forall|q: Point| #[trigger]
        flipped(s).contains(q) <==> (q.x <= w && s.contains(
            Point { x: (w - q.x) as usize, y: q.y },
        )) by {
        assert(flipped(s).contains(q) <==> m.contains(q));
        if m.contains(q) {
            let i = choose|i: int| 0 <= i < m.len() && m[i] == q;
            assert(s[i].x <= w);
            assert(s[i] == Point { x: (w - q.x) as usize, y: q.y });
        }
        let back = Point { x: (w - q.x) as usize, y: q.y };
        if q.x <= w && s.contains(back) {
            let i = choose|i: int| 0 <= i < s.len() && s[i] == back;
            assert(m[i] == q);
        }
    }
}

/// A shape that lies against both axes still does after a quarter turn, and
/// its bounding box has width and height exchanged.
pub proof fn lemma_rotated_anchored(s: Seq<Point>)
    requires
        s.len() > 0,
        is_anchored(s),
    ensures
        rotated(s).len() > 0,
        is_anchored(rotated(s)),
        is_canonical(rotated(s)),
        max_x(rotated(s)) == max_y(s),
        max_y(rotated(s)) == max_x(s),
        forall|q: Point|
            #[trigger] rotated(s).contains(q) <==> (q.x <= max_y(s) && q.y <= max_x(s)
                && s.contains(Point { x: q.y, y: (max_y(s) - q.x) as usize })),
{
    let r = rotated(s);
    let w = max_x(s);
    let h = max_y(s);
    lemma_rotated_points(s);
    lemma_max_x(s);
    lemma_max_y(s);
    let high = s[choose|i: int| 0 <= i < s.len() && (#[trigger] s[i]).y == h];
    let wide = s[choose|i: int| 0 <= i < s.len() && (#[trigger] s[i]).x == w];
    let left = s[choose|i: int| 0 <= i < s.len() && (#[trigger] s[i]).x == 0];
    let low = s[choose|i: int| 0 <= i < s.len() && (#[trigger] s[i]).y == 0];
    assert(s.contains(high) && s.contains(wide) && s.contains(left) && s.contains(low));
    assert forall|q: Point| r.contains(q) implies q.y <= w by {
        let back = Point { x: q.y, y: (h - q.x) as usize };
        let i = choose|i: int| 0 <= i < s.len() && s[i] == back;
        assert(s[i].x <= w);
    }
    let from_high = Point { x: 0, y: high.x };
    assert(r.contains(from_high));
    let from_left = Point { x: (h - left.y) as usize, y: 0 };
    assert(r.contains(from_left));
    let from_wide = Point { x: (h - wide.y) as usize, y: w };
    assert(r.contains(from_wide));
    let from_low = Point { x: h, y: low.x };
    assert(r.contains(from_low));
    let a = choose|i: int| 0 <= i < r.len() && r[i] == from_high;
    assert(r[a].x == 0);
    let b = choose|i: int| 0 <= i < r.len() && r[i] == from_left;
    assert(r[b].y == 0);
    lemma_max_y_is(r, from_wide);
    lemma_max_x_is(r, from_low);
}

/// A shape that lies against both axes still does after the mirror, and its
/// bounding box is the same.
pub proof fn lemma_flipped_anchored(s: Seq<Point>)
    requires
        s.len() > 0,
        is_anchored(s),
    ensures
        flipped(s).len() > 0,
        is_anchored(flipped(s)),
        is_canonical(flipped(s)),
        max_x(flipped(s)) == max_x(s),
        max_y(flipped(s)) == max_y(s),
        forall|q: Point|
            #[trigger] flipped(s).contains(q) <==> (q.x <= max_x(s) && q.y <= max_y(s)
                && s.contains(Point { x: (max_x(s) - q.x) as usize, y: q.y })),
{
    let f = flipped(s);
    let w = max_x(s);
    let h = max_y(s);
    lemma_flipped_points(s);
    lemma_max_x(s);
    lemma_max_y(s);
    let high = s[choose|i: int| 0 <= i < s.len() && (#[trigger] s[i]).y == h];
    let wide = s[choose|i: int| 0 <= i < s.len() && (#[trigger] s[i]).x == w];
    let left = s[choose|i: int| 0 <= i < s.len() && (#[trigger] s[i]).x == 0];
    let low = s[choose|i: int| 0 <= i < s.len() && (#[trigger] s[i]).y == 0];
    assert(s.contains(high) && s.contains(wide) && s.contains(left) && s.contains(low));
    assert forall|q: Point| f.contains(q) implies q.y <= h by {
        let back = Point { x: (w - q.x) as usize, y: q.y };
        let i = choose|i: int| 0 <= i < s.len() && s[i] == back;
        assert(s[i].y <= h);
    }
    let from_wide = Point { x: 0, y: wide.y };
    assert(f.contains(from_wide));
    let from_low = Point { x: (w - low.x) as usize, y: 0 };
    assert(f.contains(from_low));
    let from_high = Point { x: (w - high.x) as usize, y: h };
    assert(f.contains(from_high));
    let from_left = Point { x: w, y: left.y };
    assert(f.contains(from_left));
    let a = choose|i: int| 0 <= i < f.len() && f[i] == from_wide;
    assert(f[a].x == 0);
    let b = choose|i: int| 0 <= i < f.len() && f[i] == from_low;
    assert(f[b].y == 0);
    lemma_max_y_is(f, from_high);
    lemma_max_x_is(f, from_left);
}

/// A shape without points stays as it is under turns and the mirror.
pub proof fn lemma_empty_images(s: Seq<Point>)
    requires
        s.len() == 0,
    ensures
        rotated(s) == s,
        flipped(s) == s,
{
    assert(s.map_values(|p: Point| rotate_point(p, max_y(s))) =~= Seq::<Point>::empty());
    assert(s.map_values(|p: Point| flip_point(p, max_x(s))) =~= Seq::<Point>::empty());
    assert(s =~= Seq::<Point>::empty());
}

/// Four quarter turns bring a shape back to itself, if it lies against both
/// axes. (Any other shape comes back moved against the axes.)
pub proof fn lemma_rotate_four_times(s: Seq<Point>)
    requires
        is_canonical(s),
        is_anchored(s),
    ensures
        rotated(rotated(rotated(rotated(s)))) == s,
{
    if s.len() == 0 {
        lemma_empty_images(s);
    } else {
        let r1 = rotated(s);
        let r2 = rotated(r1);
        let r3 = rotated(r2);
        let r4 = rotated(r3);
        lemma_rotated_anchored(s);
        lemma_rotated_anchored(r1);
        lemma_rotated_anchored(r2);
        lemma_rotated_anchored(r3);
        lemma_max_x(s);
        lemma_max_y(s);
        let w = max_x(s);
        let h = max_y(s);
        assert forall|q: Point| r4.contains(q) <==> s.contains(q) by {
            let q3 = Point { x: q.y, y: (w - q.x) as usize };
            let q2 = Point { x: q3.y, y: (h - q3.x) as usize };
            let q1 = Point { x: q2.y, y: (w - q2.x) as usize };
            let q0 = Point { x: q1.y, y: (h - q1.x) as usize };
            assert(r4.contains(q) <==> (q.x <= w && q.y <= h && r3.contains(q3)));
            assert(r3.contains(q3) <==> (q3.x <= h && q3.y <= w && r2.contains(q2)));
            assert(r2.contains(q2) <==> (q2.x <= w && q2.y <= h && r1.contains(q1)));
            assert(r1.contains(q1) <==> (q1.x <= h && q1.y <= w && s.contains(q0)));
            if q.x <= w && q.y <= h {
                assert(q0 == q);
            }
            if s.contains(q) {
                let i = choose|i: int| 0 <= i < s.len() && s[i] == q;
                assert(s[i].x <= w && s[i].y <= h);
            }
        }
        lemma_canonical_unique(r4, s);
    }
}

/// The mirror image of the mirror image of a shape is the shape, if it lies
/// against the `y` axis. (Any other shape comes back moved against that
/// axis.)
pub proof fn lemma_flip_twice(s: Seq<Point>)
    requires
        is_canonical(s),
        s.len() == 0 || reaches_left(s),
    ensures
        flipped(flipped(s)) == s,
{
    if s.len() == 0 {
        lemma_empty_images(s);
    } else {
        let f1 = flipped(s);
        let f2 = flipped(f1);
        lemma_flipped_points(s);
        lemma_flipped_points(f1);
        lemma_max_x(s);
        let w = max_x(s);
        let left = s[choose|i: int| 0 <= i < s.len() && (#[trigger] s[i]).x == 0];
        assert(s.contains(left));
        let from_left = Point { x: w, y: left.y };
        assert(f1.contains(from_left));
        lemma_max_x_is(f1, from_left);
        assert forall|q: Point| f2.contains(q) <==> s.contains(q) by {
            let q1 = Point { x: (w - q.x) as usize, y: q.y };
            let q0 = Point { x: (w - q1.x) as usize, y: q1.y };
            assert(f2.contains(q) <==> (q.x <= w && f1.contains(q1)));
            assert(f1.contains(q1) <==> (q1.x <= w && s.contains(q0)));
            if q.x <= w {
                assert(q0 == q);
            }
            if s.contains(q) {
                let i = choose|i: int| 0 <= i < s.len() && s[i] == q;
                assert(s[i].x <= w);
            }
        }
        lemma_canonical_unique(f2, s);
    }
}

/// The mirror image of a turned shape is the mirror image turned three
/// times, if the shape lies against both axes.
pub proof fn lemma_flip_of_rotated(s: Seq<Point>)
    requires
        is_anchored(s),
    ensures
        flipped(rotated(s)) == rotated(rotated(rotated(flipped(s)))),
{
    if s.len() == 0 {
        lemma_empty_images(s);
    } else {
        let r = rotated(s);
        let fr = flipped(r);
        let f = flipped(s);
        let f1 = rotated(f);
        let f2 = rotated(f1);
        let f3 = rotated(f2);
        lemma_rotated_anchored(s);
        lemma_flipped_anchored(r);
        lemma_flipped_anchored(s);
        lemma_rotated_anchored(f);
        lemma_rotated_anchored(f1);
        lemma_rotated_anchored(f2);
        let w = max_x(s);
        let h = max_y(s);
        assert forall|q: Point| fr.contains(q) <==> f3.contains(q) by {
            let a1 = Point { x: (h - q.x) as usize, y: q.y };
            let a0 = Point { x: a1.y, y: (h - a1.x) as usize };
            assert(fr.contains(q) <==> (q.x <= h && q.y <= w && r.contains(a1)));
            assert(r.contains(a1) <==> (a1.x <= h && a1.y <= w && s.contains(a0)));
            let b2 = Point { x: q.y, y: (h - q.x) as usize };
            let b1 = Point { x: b2.y, y: (w - b2.x) as usize };
            let b0 = Point { x: b1.y, y: (h - b1.x) as usize };
            let c = Point { x: (w - b0.x) as usize, y: b0.y };
            assert(f3.contains(q) <==> (q.x <= h && q.y <= w && f2.contains(b2)));
            assert(f2.contains(b2) <==> (b2.x <= w && b2.y <= h && f1.contains(b1)));
            assert(f1.contains(b1) <==> (b1.x <= h && b1.y <= w && f.contains(b0)));
            assert(f.contains(b0) <==> (b0.x <= w && b0.y <= h && s.contains(c)));
            if q.x <= h && q.y <= w {
                assert(a0 == Point { x: q.y, y: q.x });
                assert(c == Point { x: q.y, y: q.x });
            }
        }
        lemma_canonical_unique(fr, f3);
    }
}

/// Entry `k` of `all` is none of the entries before it.
pub open spec fn is_new(all: Seq<Seq<Point>>, k: int) -> bool {
    forall|j: int| 0 <= j < k ==> #[trigger] all[j] != all[k]
}

/// The number of different shapes among the first `k` entries of `all`.
pub open spec fn count_new(all: Seq<Seq<Point>>, k: int) -> nat
    decreases k,
{
    if k <= 0 {
        0
    } else if is_new(all, k - 1) {
        count_new(all, k - 1) + 1
    } else {
        count_new(all, k - 1)
    }
}

proof fn lemma_count_new(all: Seq<Seq<Point>>, k: int)
    requires
        0 <= k <= all.len(),
    ensures
        all.take(k).to_set().finite(),
        all.take(k).to_set().len() == count_new(all, k),
    decreases k,
{
    broadcast use vstd::set::group_set_axioms;

    if k == 0 {
        assert(all.take(0).to_set() =~= Set::<Seq<Point>>::empty());
    } else {
        lemma_count_new(all, k - 1);
        let fewer = all.take(k - 1);
        let more = all.take(k);
        assert(more.to_set() =~= fewer.to_set().insert(all[k - 1])) by {
            assert forall|t: Seq<Point>| more.to_set().contains(t) <==> fewer.to_set().insert(
                all[k - 1],
            ).contains(t) by {
                if more.contains(t) {
                    let j = choose|j: int| 0 <= j < more.len() && more[j] == t;
                    if j < k - 1 {
                        assert(fewer[j] == t);
                    }
                }
                if fewer.contains(t) {
                    let j = choose|j: int| 0 <= j < fewer.len() && fewer[j] == t;
                    assert(more[j] == t);
                }
                assert(more[k - 1] == all[k - 1]);
            }
        }
        if is_new(all, k - 1) {
            if fewer.contains(all[k - 1]) {
                let j = choose|j: int| 0 <= j < fewer.len() && fewer[j] == all[k - 1];
                assert(all[j] == all[k - 1]);
            }
        } else {
            let j = choose|j: int| 0 <= j < k - 1 && #[trigger] all[j] == all[k - 1];
            assert(fewer[j] == all[k - 1]);
            assert(fewer.contains(all[k - 1]));
        }
    }
}

/// A list without repeats that holds the shapes of `all` is as long as
/// `all` has different shapes.
proof fn lemma_distinct_len(list: Seq<Seq<Point>>, all: Seq<Seq<Point>>)
    requires
        list.no_duplicates(),
        forall|t: Seq<Point>| list.contains(t) <==> all.contains(t),
    ensures
        list.len() == count_new(all, all.len() as int),
{
    list.unique_seq_to_set();
    lemma_count_new(all, all.len() as int);
    assert(all.take(all.len() as int) =~= all);
    assert(list.to_set() =~= all.to_set()) by {
        assert forall|t: Seq<Point>| list.to_set().contains(t) <==> all.to_set().contains(t) by {
            assert(list.contains(t) <==> all.contains(t));
        }
    }
}

/// What turns and the mirror do to the eight images of a shape that lies
/// against both axes: they take each image to an image.
proof fn lemma_images_closed(s: Seq<Point>)
    requires
        is_canonical(s),
        is_anchored(s),
    ensures
        rotated(images(s)[3]) == images(s)[0],
        rotated(images(s)[7]) == images(s)[4],
        flipped(images(s)[4]) == images(s)[0],
        flipped(images(s)[1]) == images(s)[7],
        flipped(images(s)[2]) == images(s)[6],
        flipped(images(s)[3]) == images(s)[5],
        flipped(images(s)[5]) == images(s)[3],
        flipped(images(s)[6]) == images(s)[2],
        flipped(images(s)[7]) == images(s)[1],
{
    let a = images(s);
    if s.len() == 0 {
        lemma_empty_images(s);
    } else {
        lemma_rotated_anchored(a[0]);
        lemma_rotated_anchored(a[1]);
        lemma_rotated_anchored(a[2]);
        lemma_flipped_anchored(a[0]);
        lemma_rotate_four_times(a[0]);
        lemma_rotate_four_times(a[4]);
        lemma_flip_twice(a[0]);
        lemma_flip_twice(a[1]);
        lemma_flip_twice(a[2]);
        lemma_flip_twice(a[3]);
        lemma_flip_of_rotated(a[0]);
        lemma_flip_of_rotated(a[1]);
        lemma_flip_of_rotated(a[2]);
    }
}

/// A shape that lies against both axes has one, two, four or eight
/// variations: as many as eight divided by the number of turns and mirror
/// images that leave it as it is.
pub proof fn lemma_variation_count_divides_eight(list: Seq<Seq<Point>>, s: Seq<Point>)
    requires
        is_canonical(s),
        is_anchored(s),
        is_variation_list(list, s),
    ensures
        list.len() == 1 || list.len() == 2 || list.len() == 4 || list.len() == 8,
{
    let a = images(s);
    lemma_distinct_len(list, a);
    lemma_images_closed(s);
    reveal_with_fuel(count_new, 9);
    assert(a.len() == 8);
    let e1 = a[1] == a[0];
    let e2 = a[2] == a[0];
    let e3 = a[3] == a[0];
    let e4 = a[4] == a[0];
    let e5 = a[5] == a[0];
    let e6 = a[6] == a[0];
    let e7 = a[7] == a[0];
    assert(a[1] == rotated(a[0]));
    assert(a[2] == rotated(a[1]));
    assert(a[3] == rotated(a[2]));
    assert(a[4] == flipped(a[0]));
    assert(a[5] == rotated(a[4]));
    assert(a[6] == rotated(a[5]));
    assert(a[7] == rotated(a[6]));
    assert(is_new(a, 0));
    assert(is_new(a, 1) <==> !e1);
    assert(is_new(a, 2) <==> !e2 && !e1) by {
        if !e2 && !e1 {
            assert(a[1] != a[2]);
        }
    }
    assert(is_new(a, 3) <==> !e3 && !e2 && !e1) by {
        if !e3 && !e2 && !e1 {
            assert(a[1] != a[3]);
            assert(a[2] != a[3]);
        }
    }
    assert(is_new(a, 4) <==> !e4 && !e5 && !e6 && !e7) by {
        if !e4 && !e5 && !e6 && !e7 {
            assert(a[1] != a[4]);
            assert(a[2] != a[4]);
            assert(a[3] != a[4]);
        }
    }
    assert(is_new(a, 5) <==> is_new(a, 4) && !e1) by {
        if is_new(a, 4) && !e1 {
            assert(a[0] != a[5]);
            assert(a[1] != a[5]);
            assert(a[2] != a[5]);
            assert(a[3] != a[5]);
            assert(a[4] != a[5]);
        }
    }
    assert(is_new(a, 6) <==> is_new(a, 4) && !e1 && !e2) by {
        if is_new(a, 4) && !e1 && !e2 {
            assert(a[0] != a[6]);
            assert(a[1] != a[6]);
            assert(a[2] != a[6]);
            assert(a[3] != a[6]);
            assert(a[4] != a[6]);
            assert(a[5] != a[6]);
        }
    }
    assert(is_new(a, 7) <==> is_new(a, 4) && !e1 && !e2 && !e3) by {
        if is_new(a, 4) && !e1 && !e2 && !e3 {
            assert(a[0] != a[7]);
            assert(a[1] != a[7]);
            assert(a[2] != a[7]);
            assert(a[3] != a[7]);
            assert(a[4] != a[7]);
            assert(a[5] != a[7]);
            assert(a[6] != a[7]);
        }
    }
    assert(e1 ==> e2 && e3);
    assert(e3 ==> e1);
}

} // verus!
