//! Why the corridor sum and the search agree where one corridor is the
//! shortest way.

use vstd::prelude::*;
use crate::corridor::{corridor_axis, in_full, runs_up, span, wrap_idx};
use crate::data::{Direction, Point};
use crate::game::{Game, MAX_CELL};
use crate::geometry::{
    axis_dist, distance_triangle, in_grid, lemma_axis_triangle, lemma_wrap_cases, torus_dist,
    valid_dims, wrap,
};
use crate::pathfinding::STEP_COST;
use crate::walks::{adjacent, lemma_adjacent_near};

verus! {

/// The side on which `b` lies from `a` on a circle of `n` places: 1 if the
/// shorter way runs upwards, -1 if it runs downwards, 0 if they are one place.
pub open spec fn heading(a: int, b: int, n: int) -> int {
    if a == b {
        0
    } else if runs_up(a, b, n) {
        1
    } else {
        -1
    }
}

/// Where the shorter way from `a` to `b` is shorter than half the circle,
/// it passes the places `a`, `a + s`, `a + 2 s`, .. up to `b`, where `s` is
/// the heading.
#[verifier::spinoff_prover]
pub proof fn lemma_corridor_places(a: int, b: int, n: int, i: int)
    requires
        2 <= n <= usize::MAX,
        n % 2 == 0,
        0 <= a < n,
        0 <= b < n,
        2 * axis_dist(a, b, n) < n,
        0 <= i <= axis_dist(a, b, n),
    ensures
        corridor_axis(a, b, n).len() == axis_dist(a, b, n) + 1,
        corridor_axis(a, b, n)[i] == wrap(a + heading(a, b, n) * i, n),
        0 <= wrap(a + heading(a, b, n) * i, n) < n,
        axis_dist(a, wrap(a + heading(a, b, n) * i, n), n) == i,
        axis_dist(wrap(a + heading(a, b, n) * i, n), b, n) == axis_dist(a, b, n) - i,
{
    let t = axis_dist(a, b, n);
    let up = runs_up(a, b, n);
    let s = heading(a, b, n);
    lemma_wrap_cases(a + s * i, n);
    let c1 = if a > b { b } else { a };
    let c2 = if a > b { a } else { b };
    let wraps = if a > b { up } else { !up };
    let base = if wraps { span(c2, n) + span(0, c1 + 1) } else { span(c1, c2 + 1) };
    let r = corridor_axis(a, b, n);
    assert(r == if !up { base.reverse() } else { base });
    assert(base.len() == t + 1);
    if !up {
        assert(base.reverse()[i] == base[base.len() - 1 - i]);
    }
    assert(s * i == (if a == b { 0 } else if up { i } else { -i })) by (nonlinear_arith)
        requires
            s == (if a == b { 0int } else if up { 1int } else { -1int }),
    ;
}

/// Each place on the shorter way lies one step from the place before it.
#[verifier::spinoff_prover]
pub proof fn lemma_corridor_next(a: int, b: int, n: int, i: int)
    requires
        2 <= n <= usize::MAX,
        n % 2 == 0,
        0 <= a < n,
        0 <= b < n,
        2 * axis_dist(a, b, n) < n,
        1 <= i <= axis_dist(a, b, n),
    ensures
        0 <= corridor_axis(a, b, n)[i - 1] < n,
        0 <= corridor_axis(a, b, n)[i] < n,
        corridor_axis(a, b, n)[i] == wrap(corridor_axis(a, b, n)[i - 1] + 1, n) || corridor_axis(
            a,
            b,
            n,
        )[i] == wrap(corridor_axis(a, b, n)[i - 1] - 1, n),
{
    lemma_corridor_places(a, b, n, i);
    lemma_corridor_places(a, b, n, i - 1);
    let s = heading(a, b, n);
    let up = runs_up(a, b, n);
    assert(s * i == (if up { i } else { -i }) && s * (i - 1) == (if up { i - 1 } else { -(i - 1) }))
        by (nonlinear_arith)
        requires
            s == (if up { 1int } else { -1int }),
    ;
    let before = corridor_axis(a, b, n)[i - 1] as int;
    lemma_wrap_cases(a + s * i, n);
    lemma_wrap_cases(a + s * (i - 1), n);
    lemma_wrap_cases(before + 1, n);
    lemma_wrap_cases(before - 1, n);
}

/// A place whose distances from `a` and to `b` add up to the distance
/// between the two lies on the shorter way from `a` to `b`.
#[verifier::spinoff_prover]
pub proof fn lemma_between(a: int, b: int, c: int, n: int)
    requires
        2 <= n,
        n % 2 == 0,
        0 <= a < n,
        0 <= b < n,
        0 <= c < n,
        2 * axis_dist(a, b, n) < n,
        axis_dist(a, c, n) + axis_dist(c, b, n) == axis_dist(a, b, n),
    ensures
        c == wrap(a + heading(a, b, n) * axis_dist(a, c, n), n),
{
    let i = axis_dist(a, c, n);
    let t = axis_dist(a, b, n);
    let s = heading(a, b, n);
    let up = runs_up(a, b, n);
    assert(s * i == (if a == b { 0 } else if up { i } else { -i })) by (nonlinear_arith)
        requires
            s == (if a == b { 0int } else if up { 1int } else { -1int }),
    ;
    lemma_wrap_cases(a + i, n);
    lemma_wrap_cases(a - i, n);
    lemma_wrap_cases(a + t, n);
    lemma_wrap_cases(a - t, n);
    if a != b {
        if up {
            assert(b == wrap(a + t, n));
        } else {
            assert(b == wrap(a - t, n));
        }
    }
}

/// On a circle of even length two places lie an even number apart just
/// when they are both even or both odd.
pub proof fn lemma_axis_parity(a: int, b: int, n: int)
    requires
        n > 0,
        n % 2 == 0,
        0 <= a < n,
        0 <= b < n,
    ensures
        (axis_dist(a, b, n) + a + b) % 2 == 0,
{
}

/// On a grid with even sides two cells lie an even number apart just when
/// their columns and rows add up to an even number.
pub proof fn lemma_distance_parity(w: int, h: int, a: Point, b: Point)
    requires
        valid_dims(w, h),
        w % 2 == 0,
        h % 2 == 0,
        in_grid(w, h, a),
        in_grid(w, h, b),
    ensures
        (torus_dist(w, h, a, b) + a.x + a.y + b.x + b.y) % 2 == 0,
{
    lemma_axis_parity(a.x as int, b.x as int, w);
    lemma_axis_parity(a.y as int, b.y as int, h);
}

/// A number taken twice is even.
pub proof fn lemma_twice_even(s: int)
    ensures
        (s + s) % 2 == 0,
{
}

/// If `a` is as odd as `s` and `t - 1` together, and `b` is odd where `a`
/// is even, then `b` is as odd as `s` and `t` together.
pub proof fn lemma_parity_step(s: int, a: int, b: int, t: int)
    requires
        (s + a + (t - 1)) % 2 == 0,
        (a + b) % 2 == 1,
    ensures
        (s + b + t) % 2 == 0,
{
}

/// Two numbers that are both even or both odd are equal or at least two
/// apart.
pub proof fn lemma_parity_gap(n: int, d: int, s: int)
    requires
        (s + n) % 2 == 0,
        (d + s) % 2 == 0,
        d <= n,
    ensures
        n == d || n >= d + 2,
{
}

/// On a grid with even sides, of two neighbouring cells one has a column
/// and a row that add up to an even number, and the other to an odd one.
pub proof fn lemma_adjacent_parity(w: int, h: int, a: Point, b: Point)
    requires
        valid_dims(w, h),
        w % 2 == 0,
        h % 2 == 0,
        in_grid(w, h, a),
        adjacent(w, h, a, b),
    ensures
        (a.x + a.y + b.x + b.y) % 2 == 1,
{
    lemma_wrap_cases(a.x + 1, w);
    lemma_wrap_cases(a.x - 1, w);
    lemma_wrap_cases(a.x as int, w);
    lemma_wrap_cases(a.y + 1, h);
    lemma_wrap_cases(a.y - 1, h);
    lemma_wrap_cases(a.y as int, h);
}

impl Game {
    /// What the cells entered on a way hold together.
    pub open spec fn walk_entered(&self, p: Seq<Point>) -> int
        decreases p.len(),
    {
        if p.len() <= 1 {
            0
        } else {
            self.walk_entered(p.drop_last()) + self.halite(p.last())
        }
    }

    /// A way costs `k` for every step and what the cells entered hold; what
    /// lies between its ends is what the cells entered hold but for the last.
    pub proof fn lemma_walk_parts(&self, p: Seq<Point>, k: int)
        requires
            self.map_ok(),
            self.is_walk(p),
        ensures
            self.walk_cost(p, k) == (p.len() - 1) * k + self.walk_entered(p),
            self.walk_entered(p) >= 0,
            p.len() >= 2 ==> self.walk_interior(p) == self.walk_entered(p) - self.halite(p.last()),
        decreases p.len(),
    {
        if p.len() > 1 {
            self.lemma_walk_prefix(p, p.len() - 1);
            let q = p.drop_last();
            assert(q =~= p.subrange(0, p.len() - 1));
            self.lemma_walk_parts(q, k);
            assert(self.contains(p.last()));
            assert(self.halite(p.last()) >= 0);
            assert((p.len() - 1) * k == (q.len() - 1) * k + k) by (nonlinear_arith)
                requires
                    q.len() == p.len() - 1,
            ;
            if p.len() > 2 {
                assert(q.last() == p[p.len() - 2]);
            }
        }
    }

    /// A way has at least as many steps as its ends lie apart, and every
    /// cell on it lies no farther from its start than the steps taken.
    pub proof fn lemma_walk_reach(&self, p: Seq<Point>, t: int)
        requires
            self.dims_ok(),
            self.is_walk(p),
            0 <= t < p.len(),
        ensures
            self.distance(p[0], p[t]) <= t,
            self.distance(p[t], p.last()) <= p.len() - 1 - t,
    {
        self.lemma_walk_from_start(p, t);
        self.lemma_walk_to_end(p, t);
    }

    /// A cell of a way lies no farther from the first cell than the steps
    /// that lead to it.
    proof fn lemma_walk_from_start(&self, p: Seq<Point>, t: int)
        requires
            self.dims_ok(),
            self.is_walk(p),
            0 <= t < p.len(),
        ensures
            self.distance(p[0], p[t]) <= t,
        decreases t,
    {
        if t > 0 {
            self.lemma_walk_from_start(p, t - 1);
            assert(self.contains(p[t - 1]) && self.contains(p[t]) && self.contains(p[0]));
            assert(adjacent(self.w(), self.h(), p[t - 1], p[t]));
            lemma_adjacent_near(self.w(), self.h(), p[t - 1], p[t]);
            distance_triangle(self.w(), self.h(), p[0], p[t - 1], p[t]);
        }
    }

    /// A cell of a way lies no farther from the last cell than the steps
    /// that are left.
    proof fn lemma_walk_to_end(&self, p: Seq<Point>, t: int)
        requires
            self.dims_ok(),
            self.is_walk(p),
            0 <= t < p.len(),
        ensures
            self.distance(p[t], p.last()) <= p.len() - 1 - t,
        decreases p.len() - t,
    {
        if t < p.len() - 1 {
            self.lemma_walk_to_end(p, t + 1);
            assert(self.contains(p[t + 1]) && self.contains(p[t]) && self.contains(p.last()));
            assert(adjacent(self.w(), self.h(), p[t], p[t + 1]));
            lemma_adjacent_near(self.w(), self.h(), p[t], p[t + 1]);
            distance_triangle(self.w(), self.h(), p[t], p[t + 1], p.last());
        }
    }

    /// The corridor from `start` to `goal` is the one shortest way round on
    /// both axes: the sides are even and the two cells lie less than half a
    /// side apart on either axis.
    pub open spec fn one_corridor(&self, start: Point, goal: Point) -> bool {
        &&& self.map_ok()
        &&& self.w() % 2 == 0
        &&& self.h() % 2 == 0
        &&& self.contains(start)
        &&& self.contains(goal)
        &&& 2 * axis_dist(start.x as int, goal.x as int, self.w()) < self.w()
        &&& 2 * axis_dist(start.y as int, goal.y as int, self.h()) < self.h()
    }

    /// The cell of the corridor from `start` to `goal` in its `i`-th
    /// column and `j`-th row.
    pub open spec fn spot(&self, start: Point, goal: Point, i: int, j: int) -> Point {
        Point {
            x: corridor_axis(start.x as int, goal.x as int, self.w())[i] as isize,
            y: corridor_axis(start.y as int, goal.y as int, self.h())[j] as isize,
        }
    }

    /// The staircase sum of the corridor's cell in column `i` and row `j`,
    /// every cell counted in full.
    #[verifier::opaque]
    pub open spec fn stair(&self, start: Point, goal: Point, i: int, j: int) -> int {
        self.staircase(
            corridor_axis(start.x as int, goal.x as int, self.w()),
            corridor_axis(start.y as int, goal.y as int, self.h()),
            in_full(),
            i,
            j,
        )
    }

    /// A cheapest staircase through the corridor up to column `i` and row `j`.
    pub open spec fn best_way(&self, start: Point, goal: Point, i: int, j: int) -> Seq<Point>
        decreases i + j,
    {
        if i < 0 || j < 0 || (i == 0 && j == 0) {
            seq![self.spot(start, goal, 0, 0)]
        } else if i == 0 {
            self.best_way(start, goal, 0, j - 1).push(self.spot(start, goal, 0, j))
        } else if j == 0 {
            self.best_way(start, goal, i - 1, 0).push(self.spot(start, goal, i, 0))
        } else if self.stair(start, goal, i - 1, j) <= self.stair(start, goal, i, j - 1) {
            self.best_way(start, goal, i - 1, j).push(self.spot(start, goal, i, j))
        } else {
            self.best_way(start, goal, i, j - 1).push(self.spot(start, goal, i, j))
        }
    }

    /// The cells of the corridor lie on the grid; the first is `start` and
    /// the last is `goal`.
    #[verifier::spinoff_prover]
    pub proof fn lemma_spots(&self, start: Point, goal: Point, i: int, j: int)
        requires
            self.one_corridor(start, goal),
            0 <= i <= axis_dist(start.x as int, goal.x as int, self.w()),
            0 <= j <= axis_dist(start.y as int, goal.y as int, self.h()),
        ensures
            self.contains(self.spot(start, goal, i, j)),
            self.spot(start, goal, 0, 0) == start,
            self.spot(
                start,
                goal,
                axis_dist(start.x as int, goal.x as int, self.w()),
                axis_dist(start.y as int, goal.y as int, self.h()),
            ) == goal,
            self.corridor_cell(
                corridor_axis(start.x as int, goal.x as int, self.w()),
                corridor_axis(start.y as int, goal.y as int, self.h()),
                in_full(),
                i,
                j,
            ) == self.halite(self.spot(start, goal, i, j)),
    {
        let w = self.w();
        let h = self.h();
        lemma_corridor_places(start.x as int, goal.x as int, w, i);
        lemma_corridor_places(start.y as int, goal.y as int, h, j);
        crate::corridor::lemma_corridor_axis(start.x as int, goal.x as int, w);
        crate::corridor::lemma_corridor_axis(start.y as int, goal.y as int, h);
    }

    /// Cells next to each other in a row of the corridor are neighbours.
    pub proof fn lemma_spot_across(&self, start: Point, goal: Point, i: int, j: int)
        requires
            self.one_corridor(start, goal),
            1 <= i <= axis_dist(start.x as int, goal.x as int, self.w()),
            0 <= j <= axis_dist(start.y as int, goal.y as int, self.h()),
        ensures
            adjacent(
                self.w(),
                self.h(),
                self.spot(start, goal, i - 1, j),
                self.spot(start, goal, i, j),
            ),
    {
        let w = self.w();
        let h = self.h();
        lemma_corridor_next(start.x as int, goal.x as int, w, i);
        lemma_corridor_places(start.y as int, goal.y as int, h, j);
        let before = self.spot(start, goal, i - 1, j);
        let here = self.spot(start, goal, i, j);
        lemma_wrap_cases(before.y as int, h);
        if here.x == wrap(before.x + 1, w) {
            assert(here == crate::geometry::step(w, h, before, Direction::East));
        } else {
            assert(here == crate::geometry::step(w, h, before, Direction::West));
        }
    }

    /// Cells next to each other in a column of the corridor are neighbours.
    pub proof fn lemma_spot_along(&self, start: Point, goal: Point, i: int, j: int)
        requires
            self.one_corridor(start, goal),
            0 <= i <= axis_dist(start.x as int, goal.x as int, self.w()),
            1 <= j <= axis_dist(start.y as int, goal.y as int, self.h()),
        ensures
            adjacent(
                self.w(),
                self.h(),
                self.spot(start, goal, i, j - 1),
                self.spot(start, goal, i, j),
            ),
    {
        let w = self.w();
        let h = self.h();
        lemma_corridor_next(start.y as int, goal.y as int, h, j);
        lemma_corridor_places(start.x as int, goal.x as int, w, i);
        let before = self.spot(start, goal, i, j - 1);
        let here = self.spot(start, goal, i, j);
        lemma_wrap_cases(before.x as int, w);
        if here.y == wrap(before.y + 1, h) {
            assert(here == crate::geometry::step(w, h, before, Direction::South));
        } else {
            assert(here == crate::geometry::step(w, h, before, Direction::North));
        }
    }

    /// The cheapest staircase is a way through the corridor that holds
    /// what the staircase sum says.
    #[verifier::spinoff_prover]
    pub proof fn lemma_best_way(&self, start: Point, goal: Point, i: int, j: int)
        requires
            self.one_corridor(start, goal),
            0 <= i <= axis_dist(start.x as int, goal.x as int, self.w()),
            0 <= j <= axis_dist(start.y as int, goal.y as int, self.h()),
        ensures
            self.walk_between(
                self.best_way(start, goal, i, j),
                start,
                self.spot(start, goal, i, j),
            ),
            self.best_way(start, goal, i, j).len() == i + j + 1,
            self.halite(start) + self.walk_entered(self.best_way(start, goal, i, j)) == self.stair(
                start,
                goal,
                i,
                j,
            ),
        decreases i + j,
    {
        reveal(Game::stair);
        let xs = corridor_axis(start.x as int, goal.x as int, self.w());
        let ys = corridor_axis(start.y as int, goal.y as int, self.h());
        self.lemma_spots(start, goal, i, j);
        self.lemma_staircase_step(xs, ys, in_full(), i, j);
        let here = self.spot(start, goal, i, j);
        if i == 0 && j == 0 {
            assert(self.is_walk(seq![start]));
        } else {
            let (pi, pj) = if i == 0 {
                (0int, j - 1)
            } else if j == 0 {
                (i - 1, 0int)
            } else if self.stair(start, goal, i - 1, j) <= self.stair(start, goal, i, j - 1) {
                (i - 1, j)
            } else {
                (i, j - 1)
            };
            self.lemma_best_way(start, goal, pi, pj);
            if pi < i {
                self.lemma_spot_across(start, goal, i, j);
            } else {
                self.lemma_spot_along(start, goal, i, j);
            }
            let before = self.best_way(start, goal, pi, pj);
            assert(self.best_way(start, goal, i, j) == before.push(here));
            self.lemma_walk_push(before, here, 0);
            assert(before.push(here).drop_last() =~= before);
        }
    }

    /// On a way that is as short as its ends lie apart, the `t`-th cell
    /// is the cell of the corridor as many columns and rows in as it lies
    /// from `start` on either axis, `t` in all.
    #[verifier::spinoff_prover]
    pub proof fn lemma_locate(&self, start: Point, goal: Point, p: Seq<Point>, t: int)
        requires
            self.one_corridor(start, goal),
            self.walk_between(p, start, goal),
            p.len() - 1 == self.distance(start, goal),
            0 <= t < p.len(),
        ensures
            axis_dist(start.x as int, p[t].x as int, self.w()) <= axis_dist(
                start.x as int,
                goal.x as int,
                self.w(),
            ),
            axis_dist(start.y as int, p[t].y as int, self.h()) <= axis_dist(
                start.y as int,
                goal.y as int,
                self.h(),
            ),
            axis_dist(start.x as int, p[t].x as int, self.w()) + axis_dist(
                start.y as int,
                p[t].y as int,
                self.h(),
            ) == t,
            p[t] == self.spot(
                start,
                goal,
                axis_dist(start.x as int, p[t].x as int, self.w()),
                axis_dist(start.y as int, p[t].y as int, self.h()),
            ),
    {
        let w = self.w();
        let h = self.h();
        let c = p[t];
        assert(self.contains(c));
        self.lemma_walk_reach(p, t);
        distance_triangle(w, h, start, c, goal);
        lemma_axis_triangle(start.x as int, c.x as int, goal.x as int, w);
        lemma_axis_triangle(start.y as int, c.y as int, goal.y as int, h);
        let i = axis_dist(start.x as int, c.x as int, w);
        let j = axis_dist(start.y as int, c.y as int, h);
        lemma_between(start.x as int, goal.x as int, c.x as int, w);
        lemma_between(start.y as int, goal.y as int, c.y as int, h);
        lemma_corridor_places(start.x as int, goal.x as int, w, i);
        lemma_corridor_places(start.y as int, goal.y as int, h, j);
    }

    /// A step on the grid leaves the column or the row as it is.
    pub proof fn lemma_step_axis(&self, b: Point, c: Point)
        requires
            self.dims_ok(),
            self.contains(b),
            adjacent(self.w(), self.h(), b, c),
        ensures
            b.x == c.x || b.y == c.y,
    {
        lemma_wrap_cases(b.x as int, self.w());
        lemma_wrap_cases(b.y as int, self.h());
    }

    /// The staircase sum of a cell of the corridor is no more than what
    /// the cell holds and the staircase sum of the cell before it in its row
    /// or in its column.
    #[verifier::spinoff_prover]
    pub proof fn lemma_stair_grows(&self, start: Point, goal: Point, i: int, j: int, across: bool)
        requires
            self.one_corridor(start, goal),
            0 <= i <= axis_dist(start.x as int, goal.x as int, self.w()),
            0 <= j <= axis_dist(start.y as int, goal.y as int, self.h()),
            across ==> i >= 1,
            !across ==> j >= 1,
        ensures
            self.stair(start, goal, i, j) <= self.halite(self.spot(start, goal, i, j)) + (
            if across {
                self.stair(start, goal, i - 1, j)
            } else {
                self.stair(start, goal, i, j - 1)
            }),
    {
        reveal(Game::stair);
        let xs = corridor_axis(start.x as int, goal.x as int, self.w());
        let ys = corridor_axis(start.y as int, goal.y as int, self.h());
        self.lemma_staircase_step(xs, ys, in_full(), i, j);
        self.lemma_spots(start, goal, i, j);
    }

    /// The staircase sum of the first cell of the corridor is what it holds.
    pub proof fn lemma_stair_first(&self, start: Point, goal: Point)
        requires
            self.one_corridor(start, goal),
        ensures
            self.stair(start, goal, 0, 0) == self.halite(start),
    {
        reveal(Game::stair);
        let xs = corridor_axis(start.x as int, goal.x as int, self.w());
        let ys = corridor_axis(start.y as int, goal.y as int, self.h());
        self.lemma_staircase_step(xs, ys, in_full(), 0, 0);
        self.lemma_spots(start, goal, 0, 0);
    }

    /// Where the `t`-th cell of a way lies in the corridor: how many
    /// columns and rows in.
    pub open spec fn place(&self, start: Point, c: Point) -> (int, int) {
        (
            axis_dist(start.x as int, c.x as int, self.w()),
            axis_dist(start.y as int, c.y as int, self.h()),
        )
    }

    /// On a way that is as short as its ends lie apart, each cell lies one
    /// column or one row farther into the corridor than the cell before it.
    #[verifier::spinoff_prover]
    pub proof fn lemma_march(&self, start: Point, goal: Point, p: Seq<Point>, t: int) -> (across: bool)
        requires
            self.one_corridor(start, goal),
            self.walk_between(p, start, goal),
            p.len() - 1 == self.distance(start, goal),
            1 <= t < p.len(),
        ensures
            across ==> self.place(start, p[t]) == (
                self.place(start, p[t - 1]).0 + 1,
                self.place(start, p[t - 1]).1,
            ),
            !across ==> self.place(start, p[t]) == (
                self.place(start, p[t - 1]).0,
                self.place(start, p[t - 1]).1 + 1,
            ),
    {
        self.lemma_locate(start, goal, p, t);
        self.lemma_locate(start, goal, p, t - 1);
        let b = p[t - 1];
        let c = p[t];
        assert(self.contains(b));
        assert(adjacent(self.w(), self.h(), b, c));
        self.lemma_step_axis(b, c);
        b.y == c.y
    }

    /// A way up to one of its cells holds what the way up to the cell before
    /// holds, and that cell.
    pub proof fn lemma_entered_last(&self, p: Seq<Point>, t: int)
        requires
            1 <= t < p.len(),
        ensures
            self.walk_entered(p.subrange(0, t + 1)) == self.walk_entered(p.subrange(0, t))
                + self.halite(p[t]),
    {
        let pre = p.subrange(0, t + 1);
        assert(pre.len() == t + 1);
        assert(pre.drop_last() =~= p.subrange(0, t));
        assert(pre.last() == p[t]);
    }

    /// On a way that is as short as its ends lie apart, the way up to any
    /// of its cells holds no less than the staircase sum of that cell.
    #[verifier::spinoff_prover]
    pub proof fn lemma_short_walk(&self, start: Point, goal: Point, p: Seq<Point>, t: int)
        requires
            self.one_corridor(start, goal),
            self.walk_between(p, start, goal),
            p.len() - 1 == self.distance(start, goal),
            0 <= t < p.len(),
        ensures
            self.halite(start) + self.walk_entered(p.subrange(0, t + 1)) >= self.stair(
                start,
                goal,
                self.place(start, p[t]).0,
                self.place(start, p[t]).1,
            ),
        decreases t,
    {
        let c = p[t];
        let (i, j) = self.place(start, c);
        self.lemma_locate(start, goal, p, t);
        if t == 0 {
            assert(p.subrange(0, 1).len() == 1);
            assert(self.walk_entered(p.subrange(0, 1)) == 0);
            self.lemma_stair_first(start, goal);
            assert(i == 0 && j == 0);
        } else {
            self.lemma_short_walk(start, goal, p, t - 1);
            let across = self.lemma_march(start, goal, p, t);
            self.lemma_stair_grows(start, goal, i, j, across);
            let (bi, bj) = self.place(start, p[t - 1]);
            let before = self.halite(start) + self.walk_entered(p.subrange(0, t));
            assert(before >= self.stair(start, goal, bi, bj));
            assert(self.stair(start, goal, i, j) <= self.halite(c) + self.stair(
                start,
                goal,
                bi,
                bj,
            ));
            self.lemma_entered_last(p, t);
        }
    }

    /// What the cells entered on a way hold, taken `d` times, is less than
    /// `k` for every step if every cell taken `d` times holds less than `k`.
    proof fn lemma_entered_bound(&self, p: Seq<Point>, d: int, k: int)
        requires
            self.map_ok(),
            self.is_walk(p),
            d >= 0,
            forall|c: Point| self.contains(c) ==> #[trigger] self.halite(c) * d < k,
        ensures
            self.walk_entered(p) * d <= (p.len() - 1) * (k - 1),
        decreases p.len(),
    {
        if p.len() > 1 {
            self.lemma_walk_prefix(p, p.len() - 1);
            let q = p.drop_last();
            assert(q =~= p.subrange(0, p.len() - 1));
            self.lemma_entered_bound(q, d, k);
            let c = p.last();
            assert(self.contains(c));
            assert(self.halite(c) * d < k);
            assert((self.walk_entered(q) + self.halite(c)) * d == self.walk_entered(q) * d
                + self.halite(c) * d) by (nonlinear_arith);
            assert((p.len() - 1) * (k - 1) == (q.len() - 1) * (k - 1) + (k - 1))
                by (nonlinear_arith)
                requires
                    q.len() == p.len() - 1,
            ;
        } else {
            assert(self.walk_entered(p) * d == 0) by (nonlinear_arith)
                requires
                    self.walk_entered(p) == 0,
            ;
            assert((p.len() - 1) * (k - 1) == 0) by (nonlinear_arith)
                requires
                    p.len() == 1,
            ;
        }
    }

    /// On a grid with even sides every step changes whether a cell's column
    /// and row add up to an even number; so after `t` steps of a way the sum
    /// differs from the first cell's by as much as `t` is odd.
    #[verifier::spinoff_prover]
    pub proof fn lemma_walk_parity(&self, p: Seq<Point>, t: int)
        requires
            self.dims_ok(),
            self.w() % 2 == 0,
            self.h() % 2 == 0,
            self.is_walk(p),
            0 <= t < p.len(),
        ensures
            (p[0].x + p[0].y + p[t].x + p[t].y + t) % 2 == 0,
        decreases t,
    {
        let s = p[0].x + p[0].y;
        if t > 0 {
            self.lemma_walk_parity(p, t - 1);
            assert(self.contains(p[t - 1]));
            assert(adjacent(self.w(), self.h(), p[t - 1], p[t]));
            lemma_adjacent_parity(self.w(), self.h(), p[t - 1], p[t]);
            lemma_parity_step(s, p[t - 1].x + p[t - 1].y, p[t].x + p[t].y, t);
        } else {
            lemma_twice_even(s);
        }
    }

    /// On a grid with even sides a way has as many steps as its ends lie
    /// apart, or at least two more.
    #[verifier::spinoff_prover]
    pub proof fn lemma_detour(&self, p: Seq<Point>)
        requires
            self.dims_ok(),
            self.w() % 2 == 0,
            self.h() % 2 == 0,
            self.is_walk(p),
        ensures
            p.len() - 1 == self.distance(p[0], p.last()) || p.len() - 1 >= self.distance(
                p[0],
                p.last(),
            ) + 2,
    {
        let a = p[0];
        let b = p.last();
        assert(self.contains(a) && self.contains(b));
        self.lemma_walk_parity(p, p.len() - 1);
        self.lemma_walk_reach(p, p.len() - 1);
        lemma_distance_parity(self.w(), self.h(), a, b);
        lemma_parity_gap(p.len() - 1, self.distance(a, b), a.x + a.y + b.x + b.y);
    }

    /// Where no detour pays, a cheapest way is as short as its ends lie
    /// apart, and holds no more than the cheapest staircase.
    ///
    /// A detour is at least two steps longer than a shortest way, and a
    /// shortest way passes one cell less than it has steps; so no detour pays
    /// if every cell, taken once for every cell between the two ends, holds
    /// less than two steps cost.
    #[verifier::spinoff_prover]
    pub proof fn lemma_cheapest_is_short(&self, start: Point, goal: Point, p: Seq<Point>)
        requires
            self.one_corridor(start, goal),
            forall|c: Point|
                self.contains(c) ==> #[trigger] self.halite(c) * (self.distance(start, goal) - 1)
                    < 2 * STEP_COST,
            self.cheapest_walk(p, start, goal, STEP_COST as int),
        ensures
            p.len() - 1 == self.distance(start, goal),
            self.halite(start) + self.walk_entered(p) <= self.stair(
                start,
                goal,
                axis_dist(start.x as int, goal.x as int, self.w()),
                axis_dist(start.y as int, goal.y as int, self.h()),
            ),
    {
        let k = STEP_COST as int;
        let tx = axis_dist(start.x as int, goal.x as int, self.w());
        let ty = axis_dist(start.y as int, goal.y as int, self.h());
        let d = self.distance(start, goal);
        let q = self.best_way(start, goal, tx, ty);
        self.lemma_best_way(start, goal, tx, ty);
        self.lemma_spots(start, goal, tx, ty);
        self.lemma_walk_parts(q, k);
        self.lemma_walk_parts(p, k);
        assert(self.walk_between(q, start, goal));
        assert(self.walk_cost(p, k) <= self.walk_cost(q, k));
        let ep = self.walk_entered(p);
        let eq = self.walk_entered(q);
        let n = p.len() - 1;
        assert(q.len() - 1 == d);
        assert(n * k + ep <= d * k + eq);
        self.lemma_detour(p);
        if n != d {
            assert(n >= d + 2);
            assert(n * k >= d * k + 2 * k) by (nonlinear_arith)
                requires
                    n >= d + 2,
                    k >= 0,
            ;
            if d > 0 {
                // the shortest way: what lies between its ends, and the goal
                let inner = q.drop_last();
                self.lemma_walk_prefix(q, q.len() - 1);
                assert(inner =~= q.subrange(0, q.len() - 1));
                self.lemma_walk_parts(inner, k);
                self.lemma_entered_bound(inner, d - 1, 2 * k);
                let ei = self.walk_entered(inner);
                assert(eq == ei + self.halite(goal));
                if d > 1 {
                    assert(ei <= 2 * k - 1) by (nonlinear_arith)
                        requires
                            ei * (d - 1) <= (d - 1) * (2 * k - 1),
                            d - 1 > 0,
                    ;
                } else {
                    assert(inner.len() == 1);
                    assert(ei == 0);
                }
                // the detour enters the goal as well
                assert(p.len() >= 2);
                let head = p.drop_last();
                self.lemma_walk_prefix(p, p.len() - 1);
                assert(head =~= p.subrange(0, p.len() - 1));
                self.lemma_walk_parts(head, k);
                assert(ep == self.walk_entered(head) + self.halite(goal));
            }
            assert(false);
        }
    }

    /// Where one corridor is the shortest way round between two cells, and
    /// the cells of the grid hold so little that no detour pays, what lies
    /// between the two on a cheapest way is the corridor sum: the search from
    /// cell to cell and the table over the corridor give one number.
    ///
    /// No detour pays if every cell, taken once for every cell between the
    /// two on a shortest way, holds less than two steps cost: a detour is at
    /// least two steps longer.
    #[verifier::spinoff_prover]
    pub proof fn corridor_agrees_with_cheapest_walk(&self, start: Point, goal: Point, p: Seq<Point>)
        requires
            self.one_corridor(start, goal),
            forall|c: Point|
                self.contains(c) ==> #[trigger] self.halite(c) * (self.distance(start, goal) - 1)
                    < 2 * STEP_COST,
            self.cheapest_walk(p, start, goal, STEP_COST as int),
        ensures
            self.walk_interior(p) == self.corridor_sum(start, goal, in_full()),
    {
        reveal(Game::stair);
        let tx = axis_dist(start.x as int, goal.x as int, self.w());
        let ty = axis_dist(start.y as int, goal.y as int, self.h());
        self.lemma_cheapest_is_short(start, goal, p);
        self.lemma_short_walk(start, goal, p, p.len() - 1);
        self.lemma_locate(start, goal, p, p.len() - 1);
        assert(p.subrange(0, p.len() as int) =~= p);
        self.lemma_walk_parts(p, STEP_COST as int);
        lemma_corridor_places(start.x as int, goal.x as int, self.w(), tx);
        lemma_corridor_places(start.y as int, goal.y as int, self.h(), ty);
        assert(self.place(start, goal) == (tx, ty));
        if start == goal {
            assert(p.len() == 1);
        } else {
            assert(p.len() >= 2);
        }
    }
}

} // verus!
