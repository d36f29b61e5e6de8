//! The mathematics of a wrapped grid: residues, distances and rings.

use vstd::prelude::*;
use vstd::arithmetic::div_mod::lemma_fundamental_div_mod_converse;
use crate::data::{Direction, Point};

verus! {

/// The residue of `v` in `0..n`.
pub open spec fn wrap(v: int, n: int) -> int {
    v % n
}

/// Distance between two residues of `0..n` on a circle of `n` places.
pub open spec fn axis_dist(a: int, b: int, n: int) -> int {
    let d = if a >= b { a - b } else { b - a };
    if d <= n - d { d } else { n - d }
}

/// Whether `p` is a cell of the `w` by `h` grid.
pub open spec fn in_grid(w: int, h: int, p: Point) -> bool {
    0 <= p.x < w && 0 <= p.y < h
}

/// Wrapped Manhattan distance between two cells.
pub open spec fn torus_dist(w: int, h: int, a: Point, b: Point) -> int {
    axis_dist(a.x as int, b.x as int, w) + axis_dist(a.y as int, b.y as int, h)
}

/// The cell that the integer pair `(x, y)` falls on.
pub open spec fn wrap_point(w: int, h: int, x: int, y: int) -> Point {
    Point { x: wrap(x, w) as isize, y: wrap(y, h) as isize }
}

/// The cell one step from `p` in direction `d`.
pub open spec fn step(w: int, h: int, p: Point, d: Direction) -> Point {
    wrap_point(w, h, p.x + d.offset().0, p.y + d.offset().1)
}

/// The cell farthest from `c` on a grid with even sides.
pub open spec fn antipode(w: int, h: int, c: Point) -> Point {
    wrap_point(w, h, c.x + w / 2, c.y + h / 2)
}

/// Offset from the centre of the `j`-th cell of a ring of radius `d`.
///
/// The ring starts in the north and runs through four arcs, each `d`
/// offsets long: from north to east, from east to south, from south to west
/// and from west to north. With `lo == 1` the last two arcs leave out their
/// first offset, which on a ring of half the grid's side falls on the first
/// offset of an earlier arc.
pub open spec fn ring_offset(d: int, lo: int, j: int) -> (int, int) {
    if j < d {
        (j, -d + j)
    } else if j < 2 * d {
        (d - (j - d), j - d)
    } else if j < 3 * d - lo {
        (-(j - 2 * d + lo), d - (j - 2 * d + lo))
    } else {
        (-d + (j - (3 * d - lo) + lo), -(j - (3 * d - lo) + lo))
    }
}

/// Number of offsets that the last two arcs of a ring of radius `d` skip.
pub open spec fn ring_skip(w: int, d: int) -> int {
    if d < w / 2 { 0 } else { 1 }
}

/// The ring of radius `d` around `c`, for `d` up to half the width.
pub open spec fn ring_near(w: int, h: int, c: Point, d: int) -> Seq<Point> {
    if d <= 0 {
        seq![c]
    } else {
        Seq::new(
            (4 * d - 2 * ring_skip(w, d)) as nat,
            |j: int|
                wrap_point(
                    w,
                    h,
                    c.x + ring_offset(d, ring_skip(w, d), j).0,
                    c.y + ring_offset(d, ring_skip(w, d), j).1,
                ),
        )
    }
}

/// The cells enumerated at radius `d` around `c`, in their fixed order.
///
/// Up to half the width the ring is walked around `c`, from the north by
/// way of the east; at radius 1 these are the four moves in their canonical
/// order. Beyond that it is the ring of radius `w - d` around the antipode,
/// walked in the same way; beyond `w` it is empty.
pub open spec fn ring(w: int, h: int, c: Point, d: int) -> Seq<Point> {
    if d <= w / 2 {
        ring_near(w, h, c, d)
    } else if d <= w {
        ring_near(w, h, antipode(w, h, c), w - d)
    } else {
        Seq::empty()
    }
}

/// Number of cells at distance exactly `d` on a square grid of even side `w`.
pub open spec fn ring_len(w: int, d: int) -> int {
    if d == 0 || d == w {
        1
    } else if d < w / 2 {
        4 * d
    } else if d == w / 2 {
        4 * d - 2
    } else if d < w {
        4 * (w - d)
    } else {
        0
    }
}

/// The longest side that a grid may have.
pub const MAX_SIDE: usize = 32768;

/// Sides that a grid may have: positive, and short enough that coordinates,
/// cell counts and sums over cells stay far inside the machine's integers.
pub open spec fn valid_dims(w: int, h: int) -> bool {
    0 < w <= MAX_SIDE && 0 < h <= MAX_SIDE
}

/// A square grid with an even side.
pub open spec fn square_even(w: int, h: int) -> bool {
    valid_dims(w, h) && w == h && w % 2 == 0
}

/// The residue of a number that lies less than one circle off the range.
pub proof fn lemma_wrap_cases(v: int, n: int)
    requires
        n > 0,
        -n <= v < 2 * n,
    ensures
        wrap(v, n) == (if v < 0 { v + n } else if v < n { v } else { v - n }),
        0 <= wrap(v, n) < n,
{
    if v < 0 {
        lemma_fundamental_div_mod_converse(v, n, -1, v + n);
    } else if v < n {
        lemma_fundamental_div_mod_converse(v, n, 0, v);
    } else {
        lemma_fundamental_div_mod_converse(v, n, 1, v - n);
    }
}

/// A residue lies in `0..n`.
pub proof fn lemma_wrap_range(v: int, n: int)
    requires
        n > 0,
    ensures
        0 <= wrap(v, n) < n,
{
    vstd::arithmetic::div_mod::lemma_mod_bound(v, n);
}

/// A cell reached by an offset of at most half the circle lies that far away.
pub proof fn lemma_axis_offset(c: int, o: int, n: int)
    requires
        n > 0,
        0 <= c < n,
        -n <= 2 * o <= n,
    ensures
        0 <= wrap(c + o, n) < n,
        axis_dist(wrap(c + o, n), c, n) == (if o >= 0 { o } else { -o }),
{
    lemma_wrap_cases(c + o, n);
}

/// A cell lies at its distance to one side or the other.
pub proof fn lemma_axis_reach(a: int, c: int, n: int)
    requires
        n > 0,
        0 <= a < n,
        0 <= c < n,
    ensures
        0 <= 2 * axis_dist(a, c, n) <= n,
        a == wrap(c + axis_dist(a, c, n), n) || a == wrap(c - axis_dist(a, c, n), n),
{
    lemma_wrap_cases(c + axis_dist(a, c, n), n);
    lemma_wrap_cases(c - axis_dist(a, c, n), n);
}

/// Offsets of at most half the circle meet only when equal or opposite halves.
pub proof fn lemma_axis_meet(c: int, o1: int, o2: int, n: int)
    requires
        n > 0,
        0 <= c < n,
        -n <= 2 * o1 <= n,
        -n <= 2 * o2 <= n,
        wrap(c + o1, n) == wrap(c + o2, n),
    ensures
        o1 == o2 || o1 - o2 == n || o2 - o1 == n,
{
    lemma_wrap_cases(c + o1, n);
    lemma_wrap_cases(c + o2, n);
}

/// On a circle of even length the distance to the opposite place is the rest
/// of half the circle.
pub proof fn lemma_axis_antipode(a: int, c: int, n: int)
    requires
        n > 0,
        n % 2 == 0,
        0 <= a < n,
        0 <= c < n,
    ensures
        0 <= wrap(c + n / 2, n) < n,
        axis_dist(a, wrap(c + n / 2, n), n) == n / 2 - axis_dist(a, c, n),
{
    lemma_wrap_cases(c + n / 2, n);
}

/// The triangle inequality on one axis.
pub proof fn lemma_axis_triangle(a: int, b: int, c: int, n: int)
    requires
        n > 0,
        0 <= a < n,
        0 <= b < n,
        0 <= c < n,
    ensures
        axis_dist(a, c, n) <= axis_dist(a, b, n) + axis_dist(b, c, n),
{
}

/// Distance does not depend on the order of its arguments, and a cell is at
/// distance zero from itself.
pub proof fn distance_is_symmetric(w: int, h: int, a: Point, b: Point)
    requires
        w > 0,
        h > 0,
    ensures
        torus_dist(w, h, a, b) == torus_dist(w, h, b, a),
        torus_dist(w, h, a, a) == 0,
{
}

/// The triangle inequality for the wrapped distance.
pub proof fn distance_triangle(w: int, h: int, a: Point, b: Point, c: Point)
    requires
        w > 0,
        h > 0,
        in_grid(w, h, a),
        in_grid(w, h, b),
        in_grid(w, h, c),
    ensures
        torus_dist(w, h, a, c) <= torus_dist(w, h, a, b) + torus_dist(w, h, b, c),
{
    lemma_axis_triangle(a.x as int, b.x as int, c.x as int, w);
    lemma_axis_triangle(a.y as int, b.y as int, c.y as int, h);
}

/// The diamond of radius `d` fits the grid without meeting itself, or
/// meets itself only in the two pairs of opposite corners that the ring
/// leaves out: the radius is less than half of either side, or the grid is
/// square and the radius is half its side.
pub open spec fn ring_fits(w: int, h: int, d: int) -> bool {
    &&& valid_dims(w, h)
    &&& 0 < d <= w / 2
    &&& (d < w / 2 && 2 * d < h) || (w == h && w == 2 * d)
}

/// Every cell of a near ring lies on the grid, at the ring's radius.
pub proof fn lemma_ring_near_sound(w: int, h: int, c: Point, d: int, j: int)
    requires
        ring_fits(w, h, d),
        in_grid(w, h, c),
        0 <= j < ring_near(w, h, c, d).len(),
    ensures
        in_grid(w, h, ring_near(w, h, c, d)[j]),
        torus_dist(w, h, ring_near(w, h, c, d)[j], c) == d,
{
    let o = ring_offset(d, ring_skip(w, d), j);
    lemma_axis_offset(c.x as int, o.0, w);
    lemma_axis_offset(c.y as int, o.1, h);
}

/// Every cell at the ring's radius occurs in the near ring.
pub proof fn lemma_ring_near_complete(w: int, h: int, c: Point, d: int, p: Point) -> (j: int)
    requires
        ring_fits(w, h, d),
        in_grid(w, h, c),
        in_grid(w, h, p),
        torus_dist(w, h, p, c) == d,
    ensures
        0 <= j < ring_near(w, h, c, d).len(),
        ring_near(w, h, c, d)[j] == p,
{
    let tx = axis_dist(p.x as int, c.x as int, w);
    let ty = axis_dist(p.y as int, c.y as int, h);
    let lo = ring_skip(w, d);
    lemma_axis_reach(p.x as int, c.x as int, w);
    lemma_axis_reach(p.y as int, c.y as int, h);
    let sx = if p.x == wrap(c.x + tx, w) { tx } else { -tx };
    let sy = if p.y == wrap(c.y + ty, h) { ty } else { -ty };
    lemma_wrap_cases(c.x + w / 2, w);
    lemma_wrap_cases(c.x - w / 2, w);
    lemma_wrap_cases(c.y + h / 2, h);
    lemma_wrap_cases(c.y - h / 2, h);
    let j = if sx >= 0 && sy < 0 {
        sx
    } else if sx > 0 && sy >= 0 {
        d + sy
    } else if sx <= 0 && sy > 0 {
        if -sx >= lo { 2 * d - sx - lo } else { 0 }
    } else {
        if -sy >= lo { 3 * d - lo - sy - lo } else { d }
    };
    assert(ring_near(w, h, c, d)[j] == p);
    j
}

/// A near ring names no cell twice.
pub proof fn lemma_ring_near_distinct(w: int, h: int, c: Point, d: int, j1: int, j2: int)
    requires
        ring_fits(w, h, d),
        in_grid(w, h, c),
        0 <= j1 < ring_near(w, h, c, d).len(),
        0 <= j2 < ring_near(w, h, c, d).len(),
        j1 != j2,
    ensures
        ring_near(w, h, c, d)[j1] != ring_near(w, h, c, d)[j2],
{
    let lo = ring_skip(w, d);
    let o1 = ring_offset(d, lo, j1);
    let o2 = ring_offset(d, lo, j2);
    lemma_wrap_range(c.x + o1.0, w);
    lemma_wrap_range(c.x + o2.0, w);
    lemma_wrap_range(c.y + o1.1, h);
    lemma_wrap_range(c.y + o2.1, h);
    if ring_near(w, h, c, d)[j1] == ring_near(w, h, c, d)[j2] {
        lemma_axis_meet(c.x as int, o1.0, o2.0, w);
        lemma_axis_meet(c.y as int, o1.1, o2.1, h);
        assert(false);
    }
}

/// A ring of radius up to half the side holds each cell at that distance
/// exactly once.
pub proof fn lemma_ring_near_exact(w: int, h: int, c: Point, d: int)
    requires
        valid_dims(w, h),
        in_grid(w, h, c),
        d == 0 || ring_fits(w, h, d),
    ensures
        ring_near(w, h, c, d).no_duplicates(),
        ring_near(w, h, c, d).len() == (if d == 0 { 1 } else { 4 * d - 2 * ring_skip(w, d) }),
        forall|p: Point|
            ring_near(w, h, c, d).contains(p) <==> in_grid(w, h, p) && torus_dist(w, h, p, c) == d,
{
    let r = ring_near(w, h, c, d);
    if d == 0 {
        assert(r[0] == c);
        assert forall|p: Point| r.contains(p) <==> in_grid(w, h, p) && torus_dist(w, h, p, c)
            == d by {
            if in_grid(w, h, p) && torus_dist(w, h, p, c) == 0 {
                assert(p == c);
                assert(r[0] == p);
            }
        }
    } else {
        assert forall|j1: int, j2: int| 0 <= j1 < r.len() && 0 <= j2 < r.len() && j1 != j2 implies r[j1]
            != r[j2] by {
            lemma_ring_near_distinct(w, h, c, d, j1, j2);
        }
        assert forall|p: Point| r.contains(p) <==> in_grid(w, h, p) && torus_dist(w, h, p, c)
            == d by {
            if r.contains(p) {
                let j = choose|j: int| 0 <= j < r.len() && r[j] == p;
                lemma_ring_near_sound(w, h, c, d, j);
            }
            if in_grid(w, h, p) && torus_dist(w, h, p, c) == d {
                let j = lemma_ring_near_complete(w, h, c, d, p);
            }
        }
    }
}

/// On a grid at least four cells wide, the ring of radius 1 is the four
/// cells next to its centre in the canonical order of the moves: north, east,
/// south, west.
pub proof fn ring_of_one_is_the_moves(w: int, h: int, c: Point)
    requires
        valid_dims(w, h),
        w >= 4,
    ensures
        ring(w, h, c, 1) == Seq::new(4, |i: int| step(w, h, c, Direction::adjacent()[i])),
{
    let r = ring(w, h, c, 1);
    let moves = Seq::new(4, |i: int| step(w, h, c, Direction::adjacent()[i]));
    assert(r.len() == 4);
    assert forall|i: int| 0 <= i < 4 implies r[i] == moves[i] by {
        assert(ring_offset(1, 0, i) == Direction::adjacent()[i].offset());
    }
    assert(r =~= moves);
}

/// On any grid, the ring of a radius less than half of either side holds
/// exactly the cells at that wrapped distance from its centre, each once:
/// `4 * d` cells, or the centre alone.
pub proof fn small_ring_is_exact(w: int, h: int, c: Point, d: int)
    requires
        valid_dims(w, h),
        in_grid(w, h, c),
        0 <= d,
        d == 0 || (d < w / 2 && 2 * d < h),
    ensures
        ring(w, h, c, d).no_duplicates(),
        ring(w, h, c, d).len() == (if d == 0 { 1 } else { 4 * d }),
        forall|p: Point|
            ring(w, h, c, d).contains(p) <==> in_grid(w, h, p) && torus_dist(w, h, p, c) == d,
{
    lemma_ring_near_exact(w, h, c, d);
}

/// On a square grid of even side, the ring of radius `d` around a cell holds
/// exactly the cells at wrapped distance `d` from it, each once. Its length
/// is the diamond's perimeter `4 * d` below half the side, two less at half
/// the side, where opposite corners of the diamond fall on one cell, and
/// that of the mirrored ring around the antipode beyond it.
pub proof fn ring_is_exact(w: int, h: int, c: Point, d: int)
    requires
        square_even(w, h),
        in_grid(w, h, c),
        0 <= d,
    ensures
        ring(w, h, c, d).no_duplicates(),
        ring(w, h, c, d).len() == ring_len(w, d),
        forall|p: Point|
            ring(w, h, c, d).contains(p) <==> in_grid(w, h, p) && torus_dist(w, h, p, c) == d,
{
    let r = ring(w, h, c, d);
    if d <= w / 2 {
        lemma_ring_near_exact(w, h, c, d);
    } else if d <= w {
        let a = antipode(w, h, c);
        lemma_wrap_range(c.x + w / 2, w);
        lemma_wrap_range(c.y + h / 2, h);
        lemma_ring_near_exact(w, h, a, w - d);
        assert(r == ring_near(w, h, a, w - d));
        assert forall|p: Point| r.contains(p) <==> in_grid(w, h, p) && torus_dist(w, h, p, c)
            == d by {
            if in_grid(w, h, p) {
                lemma_axis_antipode(p.x as int, c.x as int, w);
                lemma_axis_antipode(p.y as int, c.y as int, h);
                assert(torus_dist(w, h, p, a) == w - torus_dist(w, h, p, c));
            }
        }
    } else {
        assert forall|p: Point| r.contains(p) <==> in_grid(w, h, p) && torus_dist(w, h, p, c)
            == d by {
            if in_grid(w, h, p) {
                lemma_axis_reach(p.x as int, c.x as int, w);
                lemma_axis_reach(p.y as int, c.y as int, h);
            }
        }
    }
}

} // verus!
