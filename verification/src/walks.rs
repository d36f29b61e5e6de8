//! Ways across the grid, cell by neighbouring cell, and what they cost.

use vstd::prelude::*;
use crate::data::{Direction, Point};
use crate::game::{Game, MAX_CELL};
use crate::geometry::{
    axis_dist, distance_triangle, in_grid, lemma_axis_offset, lemma_wrap_cases, step, torus_dist,
    valid_dims, wrap,
};
use crate::vmaps::{lemma_distance_bound, toward, toward_axis};

verus! {

/// The largest cost per step that a search accepts.
pub const MAX_STEP_COST: i64 = 0x1_0000_0000;

/// `b` is one step north, east, south or west of `a`.
pub open spec fn adjacent(w: int, h: int, a: Point, b: Point) -> bool {
    ||| b == step(w, h, a, Direction::North)
    ||| b == step(w, h, a, Direction::East)
    ||| b == step(w, h, a, Direction::South)
    ||| b == step(w, h, a, Direction::West)
}

/// Neighbouring cells lie at most one apart.
pub proof fn lemma_adjacent_near(w: int, h: int, a: Point, b: Point)
    requires
        valid_dims(w, h),
        in_grid(w, h, a),
        adjacent(w, h, a, b),
    ensures
        in_grid(w, h, b),
        torus_dist(w, h, a, b) <= 1,
        torus_dist(w, h, b, a) <= 1,
{
    lemma_wrap_cases(a.x + 1, w);
    lemma_wrap_cases(a.x - 1, w);
    lemma_wrap_cases(a.x as int, w);
    lemma_wrap_cases(a.y + 1, h);
    lemma_wrap_cases(a.y - 1, h);
    lemma_wrap_cases(a.y as int, h);
}

/// The cell one step nearer to `c` has `p` for a neighbour.
pub proof fn lemma_toward_adjacent(w: int, h: int, p: Point, c: Point)
    requires
        valid_dims(w, h),
        in_grid(w, h, p),
        in_grid(w, h, c),
        torus_dist(w, h, p, c) > 0,
    ensures
        in_grid(w, h, toward(w, h, p, c)),
        adjacent(w, h, toward(w, h, p, c), p),
        torus_dist(w, h, toward(w, h, p, c), c) == torus_dist(w, h, p, c) - 1,
{
    let q = toward(w, h, p, c);
    lemma_wrap_cases(p.x + 1, w);
    lemma_wrap_cases(p.x - 1, w);
    lemma_wrap_cases(p.y + 1, h);
    lemma_wrap_cases(p.y - 1, h);
    lemma_wrap_cases(p.x as int, w);
    lemma_wrap_cases(p.y as int, h);
    lemma_wrap_cases(q.x + 1, w);
    lemma_wrap_cases(q.x - 1, w);
    lemma_wrap_cases(q.y + 1, h);
    lemma_wrap_cases(q.y - 1, h);
    lemma_wrap_cases(q.x as int, w);
    lemma_wrap_cases(q.y as int, h);
}

impl Game {
    /// A way across the grid: at least one cell, each next to the one before.
    pub open spec fn is_walk(&self, p: Seq<Point>) -> bool {
        &&& p.len() >= 1
        &&& forall|i: int| 0 <= i < p.len() ==> self.contains(#[trigger] p[i])
        &&& forall|i: int|
            0 <= i < p.len() - 1 ==> adjacent(self.w(), self.h(), #[trigger] p[i], p[i + 1])
    }

    /// A way from `from` to `to`.
    pub open spec fn walk_between(&self, p: Seq<Point>, from: Point, to: Point) -> bool {
        self.is_walk(p) && p[0] == from && p.last() == to
    }

    /// What a way costs: for every cell entered, `k` and what the cell holds.
    /// The cell the way starts on is not entered.
    pub open spec fn walk_cost(&self, p: Seq<Point>, k: int) -> int
        decreases p.len(),
    {
        if p.len() <= 1 {
            0
        } else {
            self.walk_cost(p.drop_last(), k) + k + self.halite(p.last())
        }
    }

    /// Resources on the cells of a way strictly between its two ends.
    pub open spec fn walk_interior(&self, p: Seq<Point>) -> int
        decreases p.len(),
    {
        if p.len() <= 2 {
            0
        } else {
            self.walk_interior(p.drop_last()) + self.halite(p[p.len() - 2])
        }
    }

    /// `c` is the cost of a cheapest way from `from` to `to`.
    pub open spec fn cheapest(&self, from: Point, to: Point, k: int, c: int) -> bool {
        &&& exists|p: Seq<Point>| #[trigger] self.walk_between(p, from, to) && self.walk_cost(p, k) == c
        &&& forall|p: Seq<Point>| #[trigger] self.walk_between(p, from, to) ==> self.walk_cost(p, k) >= c
    }

    /// A shortest way from `from` to `to`, which at every step comes one
    /// nearer: first along the row, then along the column.
    pub open spec fn straight(&self, from: Point, to: Point) -> Seq<Point>
        decreases self.distance(to, from),
    {
        if self.distance(to, from) <= 0 {
            seq![to]
        } else if self.distance(toward(self.w(), self.h(), to, from), from) == self.distance(
            to,
            from,
        ) - 1 {
            self.straight(from, toward(self.w(), self.h(), to, from)).push(to)
        } else {
            seq![to]
        }
    }

    /// A way shortened by its last cell is a way.
    pub proof fn lemma_walk_prefix(&self, p: Seq<Point>, n: int)
        requires
            self.is_walk(p),
            1 <= n <= p.len(),
        ensures
            self.is_walk(p.subrange(0, n)),
            p.subrange(0, n)[0] == p[0],
            p.subrange(0, n).last() == p[n - 1],
            n >= 2 ==> p.subrange(0, n).drop_last() == p.subrange(0, n - 1),
    {
        let q = p.subrange(0, n);
        assert forall|i: int| 0 <= i < q.len() - 1 implies adjacent(
            self.w(),
            self.h(),
            #[trigger] q[i],
            q[i + 1],
        ) by {
            assert(q[i] == p[i]);
            assert(q[i + 1] == p[i + 1]);
        }
        if n >= 2 {
            assert(q.drop_last() =~= p.subrange(0, n - 1));
        }
    }

    /// A way with one more neighbouring cell is a way, and costs what
    /// entering that cell adds.
    pub proof fn lemma_walk_push(&self, p: Seq<Point>, c: Point, k: int)
        requires
            self.is_walk(p),
            self.contains(c),
            adjacent(self.w(), self.h(), p.last(), c),
        ensures
            self.is_walk(p.push(c)),
            p.push(c)[0] == p[0],
            p.push(c).last() == c,
            self.walk_cost(p.push(c), k) == self.walk_cost(p, k) + k + self.halite(c),
    {
        let q = p.push(c);
        assert forall|i: int| 0 <= i < q.len() - 1 implies adjacent(
            self.w(),
            self.h(),
            #[trigger] q[i],
            q[i + 1],
        ) by {
            if i < p.len() - 1 {
                assert(q[i] == p[i]);
                assert(q[i + 1] == p[i + 1]);
            }
        }
        assert(q.drop_last() =~= p);
    }

    /// No way costs less than nothing, nor more than the dearest step for
    /// every cell entered.
    pub proof fn lemma_walk_cost_bounds(&self, p: Seq<Point>, k: int)
        requires
            self.map_ok(),
            self.is_walk(p),
            0 <= k,
        ensures
            0 <= self.walk_cost(p, k) <= (p.len() - 1) * (k + MAX_CELL),
        decreases p.len(),
    {
        if p.len() > 1 {
            self.lemma_walk_prefix(p, p.len() - 1);
            assert(p.drop_last() =~= p.subrange(0, p.len() - 1));
            self.lemma_walk_cost_bounds(p.drop_last(), k);
            let c = p.last();
            assert(self.contains(c));
            assert(self.halite_map.at(c.x as int, c.y as int) <= MAX_CELL);
            assert((p.len() - 1) * (k + MAX_CELL) == (p.len() - 2) * (k + MAX_CELL) + (k
                + MAX_CELL)) by (nonlinear_arith);
        }
    }

    /// Between any two cells runs a way with as many steps as they lie apart.
    pub proof fn lemma_straight(&self, from: Point, to: Point)
        requires
            self.dims_ok(),
            self.contains(from),
            self.contains(to),
        ensures
            self.walk_between(self.straight(from, to), from, to),
            self.straight(from, to).len() == self.distance(to, from) + 1,
        decreases self.distance(to, from),
    {
        lemma_distance_bound(self.w(), self.h(), to, from);
        if self.distance(to, from) <= 0 {
            assert(to == from);
        } else {
            let q = toward(self.w(), self.h(), to, from);
            lemma_toward_adjacent(self.w(), self.h(), to, from);
            self.lemma_straight(from, q);
            self.lemma_walk_push(self.straight(from, q), to, 0);
        }
    }

    /// The estimate of what is left never overstates: from any cell of a
    /// way, `k` for every step that the cell lies from `anchor` is no more
    /// than what the rest of the way costs and the estimate at its end.
    pub proof fn lemma_estimate_consistent(&self, p: Seq<Point>, i: int, anchor: Point, k: int)
        requires
            self.map_ok(),
            self.is_walk(p),
            self.contains(anchor),
            0 <= k,
            0 <= i < p.len(),
        ensures
            k * self.distance(anchor, p[i]) + self.walk_cost(p.subrange(0, i + 1), k)
                <= self.walk_cost(p, k) + k * self.distance(anchor, p.last()),
        decreases p.len() - i,
    {
        if i == p.len() - 1 {
            assert(p.subrange(0, i + 1) =~= p);
        } else {
            self.lemma_estimate_consistent(p, i + 1, anchor, k);
            self.lemma_walk_prefix(p, i + 2);
            let a = p[i];
            let b = p[i + 1];
            assert(self.contains(a) && self.contains(b));
            assert(adjacent(self.w(), self.h(), a, b));
            lemma_adjacent_near(self.w(), self.h(), a, b);
            distance_triangle(self.w(), self.h(), anchor, b, a);
            let da = self.distance(anchor, a);
            let db = self.distance(anchor, b);
            assert(da <= db + 1);
            assert(k * da <= k * db + k) by (nonlinear_arith)
                requires
                    da <= db + 1,
                    0 <= k,
            ;
            assert(self.halite(b) >= 0);
            let pre = p.subrange(0, i + 2);
            assert(pre.last() == b);
            assert(pre.drop_last() == p.subrange(0, i + 1));
            assert(self.walk_cost(pre, k) == self.walk_cost(p.subrange(0, i + 1), k) + k
                + self.halite(b));
        }
    }
}

} // verus!
