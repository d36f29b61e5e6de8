//! Resources lying along a shortest way between two cells.

use vstd::prelude::*;
use crate::data::Point;
use crate::game::{Game, MAX_CELL};
use crate::geometry::axis_dist;

verus! {

/// The numbers `a, a + 1, ..` up to but not including `b`.
pub open spec fn span(a: int, b: int) -> Seq<usize> {
    Seq::new((if b > a { b - a } else { 0 }) as nat, |i: int| (a + i) as usize)
}

/// Indices along one axis between the coordinates `c1 <= c2`: straight from
/// `c1` up to `c2`, or with `wrap` from `c2` over the edge of the grid up to
/// `c1`; with `reverse` in the opposite order.
pub open spec fn wrap_idx(c1: int, c2: int, wrap: bool, reverse: bool, max_dim: int) -> Seq<usize> {
    let base = if wrap {
        span(c2, max_dim) + span(0, c1 + 1)
    } else {
        span(c1, c2 + 1)
    };
    if reverse {
        base.reverse()
    } else {
        base
    }
}

/// Whether the shorter way from `a` to `b` on a circle of `n` places runs
/// upwards. At exactly half the circle it runs downwards.
pub open spec fn runs_up(a: int, b: int, n: int) -> bool {
    if a > b {
        2 * (a - b) > n
    } else {
        2 * (b - a) < n
    }
}

/// The coordinates passed on the shorter way from `a` to `b` along one
/// axis, both ends included: one more than the two lie apart. From a place
/// to itself it is that place alone.
pub open spec fn corridor_axis(a: int, b: int, n: int) -> Seq<usize> {
    let up = runs_up(a, b, n);
    if a > b {
        wrap_idx(b, a, up, !up, n)
    } else {
        wrap_idx(a, b, !up, !up, n)
    }
}

/// The way along one axis starts at `a`, ends at `b`, stays on the grid
/// and has one place more than the two lie apart.
pub proof fn lemma_corridor_axis(a: int, b: int, n: int)
    requires
        0 <= a < n,
        0 <= b < n,
        n <= usize::MAX,
    ensures
        corridor_axis(a, b, n).len() == axis_dist(a, b, n) + 1,
        corridor_axis(a, b, n).len() >= 1,
        corridor_axis(a, b, n).len() <= n + 1,
        corridor_axis(a, b, n)[0] == a,
        corridor_axis(a, b, n).last() == b,
        forall|i: int|
            0 <= i < corridor_axis(a, b, n).len() ==> (#[trigger] corridor_axis(a, b, n)[i]) < n,
        a != b ==> corridor_axis(a, b, n).len() >= 2,
{
    let up = runs_up(a, b, n);
    let c1 = if a > b { b } else { a };
    let c2 = if a > b { a } else { b };
    let wrap = if a > b { up } else { !up };
    let base = if wrap { span(c2, n) + span(0, c1 + 1) } else { span(c1, c2 + 1) };
    assert(base.len() >= 1);
    assert(forall|i: int| 0 <= i < base.len() ==> (#[trigger] base[i]) < n);
    let r = corridor_axis(a, b, n);
    assert(r == if !up { base.reverse() } else { base });
    assert(forall|i: int| 0 <= i < base.len() ==> base.reverse()[i] == base[base.len() - 1 - i]);
}

/// Pushes `from, from + 1, ..` up to but not including `to`.
fn push_span(idx: &mut Vec<usize>, from: usize, to: usize)
    ensures
        final(idx)@ == old(idx)@ + span(from as int, to as int),
{
    let ghost before = idx@;
    let mut c: usize = from;
    assert(idx@ =~= before + span(from as int, from as int));
    while c < to
        invariant
            from <= c,
            c <= to || c == from,
            idx@ == before + span(from as int, c as int),
        decreases to - c,
    {
        idx.push(c);
        assert(idx@ =~= before + span(from as int, c as int + 1));
        c += 1;
    }
    assert(idx@ =~= before + span(from as int, to as int));
}

/// The indices along one axis between `c1 <= c2`, as [`wrap_idx`] orders
/// them.
#[verifier::spinoff_prover]
pub fn get_wrap_idx(c1: usize, c2: usize, wrap: bool, reverse: bool, max_dim: usize) -> (idx: Vec<
    usize,
>)
    requires
        c1 < usize::MAX,
        c2 < usize::MAX,
    ensures
        idx@ == wrap_idx(c1 as int, c2 as int, wrap, reverse, max_dim as int),
{
    let mut idx: Vec<usize> = Vec::new();
    if wrap {
        push_span(&mut idx, c2, max_dim);
        push_span(&mut idx, 0, c1 + 1);
        assert(idx@ =~= span(c2 as int, max_dim as int) + span(0, c1 as int + 1));
    } else {
        push_span(&mut idx, c1, c2 + 1);
        assert(idx@ =~= span(c1 as int, c2 as int + 1));
    }
    if reverse {
        let mut back: Vec<usize> = Vec::new();
        let n = idx.len();
        let mut i: usize = 0;
        while i < n
            invariant
                n == idx.len(),
                i <= n,
                back.len() == i,
                forall|k: int| 0 <= k < i ==> back[k] == idx[n - 1 - k],
            decreases n - i,
        {
            back.push(idx[n - 1 - i]);
            i += 1;
        }
        assert(back@ =~= idx@.reverse());
        back
    } else {
        idx
    }
}

/// The transform under which every amount counts in full.
pub open spec fn in_full() -> spec_fn(int) -> int {
    |v: int| v
}

/// The transform under which every amount counts for its `d`-th part,
/// rounded down.
pub open spec fn part_of(d: int) -> spec_fn(int) -> int {
    |v: int| v / d
}

/// Whether `val` says what the transform `f` makes of every amount that a
/// cell can hold.
pub open spec fn obeys<F: Fn(usize) -> usize>(f: F, val: spec_fn(int) -> int) -> bool {
    forall|v: usize, r: usize| v <= MAX_CELL && #[trigger] f.ensures((v,), r) ==> r == val(v as int)
}

impl Game {
    /// What the cell in column `xs[i]` and row `ys[j]` counts for: what
    /// `val` makes of its resources.
    pub open spec fn corridor_cell(
        &self,
        xs: Seq<usize>,
        ys: Seq<usize>,
        val: spec_fn(int) -> int,
        i: int,
        j: int,
    ) -> int {
        val(self.halite_map.at(xs[i] as int, ys[j] as int) as int)
    }

    /// The least sum of cell values along a staircase from the cell
    /// `(xs[0], ys[0])` to the cell `(xs[i], ys[j])`: a way that at every step
    /// moves on by one column or by one row. Both ends count.
    #[verifier::opaque]
    pub open spec fn staircase(
        &self,
        xs: Seq<usize>,
        ys: Seq<usize>,
        val: spec_fn(int) -> int,
        i: int,
        j: int,
    ) -> int
        decreases i + j,
    {
        if i < 0 || j < 0 {
            0
        } else {
            let here = self.corridor_cell(xs, ys, val, i, j);
            if i == 0 && j == 0 {
                here
            } else if i == 0 {
                here + self.staircase(xs, ys, val, 0, j - 1)
            } else if j == 0 {
                here + self.staircase(xs, ys, val, i - 1, 0)
            } else {
                let left = self.staircase(xs, ys, val, i - 1, j);
                let up = self.staircase(xs, ys, val, i, j - 1);
                here + if left <= up { left } else { up }
            }
        }
    }

    /// The corridor sum between `start` and `goal`: the least sum of cell
    /// values, each as `val` transforms it, over the cells strictly between
    /// the two on a staircase through the rectangle that the shorter way
    /// round the grid spans on each axis.
    pub open spec fn corridor_sum(&self, start: Point, goal: Point, val: spec_fn(int) -> int) -> int {
        if start == goal {
            0
        } else {
            let xs = corridor_axis(start.x as int, goal.x as int, self.w());
            let ys = corridor_axis(start.y as int, goal.y as int, self.h());
            self.staircase(xs, ys, val, xs.len() - 1, ys.len() - 1) - val(self.halite(start)) - val(
                self.halite(goal),
            )
        }
    }

    /// How the staircase sum of a cell follows from those of the cell before
    /// it in its row and in its column.
    pub proof fn lemma_staircase_step(
        &self,
        xs: Seq<usize>,
        ys: Seq<usize>,
        val: spec_fn(int) -> int,
        i: int,
        j: int,
    )
        requires
            0 <= i,
            0 <= j,
        ensures
            self.staircase(xs, ys, val, i, j) == self.corridor_cell(xs, ys, val, i, j) + (if i == 0
                && j == 0 {
                0
            } else if i == 0 {
                self.staircase(xs, ys, val, 0, j - 1)
            } else if j == 0 {
                self.staircase(xs, ys, val, i - 1, 0)
            } else if self.staircase(xs, ys, val, i - 1, j) <= self.staircase(
                xs,
                ys,
                val,
                i,
                j - 1,
            ) {
                self.staircase(xs, ys, val, i - 1, j)
            } else {
                self.staircase(xs, ys, val, i, j - 1)
            }),
    {
        reveal(Game::staircase);
    }

    /// Between two cells that lie no more than one step apart there is
    /// nothing to sum, whatever the cells count for.
    pub proof fn lemma_corridor_near(&self, start: Point, goal: Point, val: spec_fn(int) -> int)
        requires
            self.dims_ok(),
            self.contains(start),
            self.contains(goal),
            self.distance(start, goal) <= 1,
        ensures
            self.corridor_sum(start, goal, val) == 0,
    {
        if start != goal {
            let xs = corridor_axis(start.x as int, goal.x as int, self.w());
            let ys = corridor_axis(start.y as int, goal.y as int, self.h());
            lemma_corridor_axis(start.x as int, goal.x as int, self.w());
            lemma_corridor_axis(start.y as int, goal.y as int, self.h());
            self.lemma_staircase_step(xs, ys, val, 0, 0);
            if xs.len() == 2 {
                assert(ys.len() == 1);
                self.lemma_staircase_step(xs, ys, val, 1, 0);
            } else {
                assert(xs.len() == 1 && ys.len() == 2);
                self.lemma_staircase_step(xs, ys, val, 0, 1);
            }
        }
    }

    /// The first `n` sums of `row` are the staircase sums of row `j` under
    /// `val`.
    pub open spec fn row_is(
        &self,
        xs: Seq<usize>,
        ys: Seq<usize>,
        val: spec_fn(int) -> int,
        row: Seq<u64>,
        n: int,
        j: int,
    ) -> bool {
        forall|k: int| 0 <= k < n ==> (#[trigger] row[k]) == self.staircase(xs, ys, val, k, j)
    }

    /// Resources strictly between `start` and `goal` along the cheapest
    /// staircase of the shorter way round, each cell's amount transformed by
    /// `h_fn` before it is added.
    ///
    /// Whatever function of the amount the results of `h_fn` obey, the sum
    /// is the corridor sum under that function. Between a cell and itself,
    /// and between two cells next to each other, lies nothing, whatever `h_fn`
    /// does.
    #[verifier::spinoff_prover]
    pub fn halite_between2<F: Fn(usize) -> usize>(&self, start: Point, goal: Point, h_fn: &F) -> (sum:
        u64)
        requires
            self.map_ok(),
            self.contains(start),
            self.contains(goal),
            forall|v: usize| v <= MAX_CELL ==> #[trigger] h_fn.requires((v,)),
            forall|v: usize, r: usize|
                v <= MAX_CELL && #[trigger] h_fn.ensures((v,), r) ==> r <= MAX_CELL,
        ensures
            forall|val: spec_fn(int) -> int| #[trigger]
                obeys(*h_fn, val) ==> sum == self.corridor_sum(start, goal, val),
            self.distance(start, goal) <= 1 ==> sum == 0,
            sum <= 65540 * MAX_CELL,
    {
        if start.x == goal.x && start.y == goal.y {
            return 0;
        }
        let width = self.width;
        let height = self.height;
        let sx = start.x as usize;
        let sy = start.y as usize;
        let gx = goal.x as usize;
        let gy = goal.y as usize;
        let rightwards = if sx > gx { 2 * (sx - gx) > width } else { 2 * (gx - sx) < width };
        let downwards = if sy > gy { 2 * (sy - gy) > height } else { 2 * (gy - sy) < height };
        let x_idx = if sx > gx {
            get_wrap_idx(gx, sx, rightwards, !rightwards, width)
        } else {
            get_wrap_idx(sx, gx, !rightwards, !rightwards, width)
        };
        let y_idx = if sy > gy {
            get_wrap_idx(gy, sy, downwards, !downwards, height)
        } else {
            get_wrap_idx(sy, gy, !downwards, !downwards, height)
        };
        let ghost xs = corridor_axis(start.x as int, goal.x as int, self.w());
        let ghost ys = corridor_axis(start.y as int, goal.y as int, self.h());
        proof {
            lemma_corridor_axis(start.x as int, goal.x as int, self.w());
            lemma_corridor_axis(start.y as int, goal.y as int, self.h());
            assert(x_idx@ == xs);
            assert(y_idx@ == ys);
        }
        let x_len = x_idx.len();
        let y_len = y_idx.len();
        if x_len + y_len <= 3 {
            proof {
                assert forall|val: spec_fn(int) -> int| #[trigger]
                    obeys(*h_fn, val) implies self.corridor_sum(start, goal, val) == 0 by {
                    self.lemma_corridor_near(start, goal, val);
                }
            }
            return 0;
        }
        let at_start: u64 = h_fn(self.halite_at(start)) as u64;
        let at_goal: u64 = h_fn(self.halite_at(goal)) as u64;
        let mut prev: Vec<u64> = Vec::new();
        let mut yi: usize = 0;
        while yi < y_len
            invariant
                self.map_ok(),
                x_idx@ == xs,
                y_idx@ == ys,
                x_len == xs.len(),
                y_len == ys.len(),
                1 <= x_len <= self.w() + 1,
                1 <= y_len <= self.h() + 1,
                x_len + y_len > 2,
                forall|k: int| 0 <= k < xs.len() ==> (#[trigger] xs[k]) < self.w(),
                forall|k: int| 0 <= k < ys.len() ==> (#[trigger] ys[k]) < self.h(),
                forall|v: usize| v <= MAX_CELL ==> #[trigger] h_fn.requires((v,)),
                forall|v: usize, r: usize|
                    v <= MAX_CELL && #[trigger] h_fn.ensures((v,), r) ==> r <= MAX_CELL,
                at_start <= MAX_CELL,
                at_goal <= MAX_CELL,
                h_fn.ensures((self.halite_map.at(xs[0] as int, ys[0] as int),), at_start as usize),
                h_fn.ensures(
                    (self.halite_map.at(xs[x_len - 1] as int, ys[y_len - 1] as int),),
                    at_goal as usize,
                ),
                yi <= y_len,
                yi > 0 ==> prev.len() == x_len,
                forall|k: int|
                    yi > 0 && 0 <= k < x_len ==> at_start <= (#[trigger] prev[k]) <= (k + yi)
                        * MAX_CELL,
                yi == y_len ==> prev[x_len - 1] >= at_start + at_goal,
                forall|val: spec_fn(int) -> int| #[trigger]
                    obeys(*h_fn, val) && yi > 0 ==> self.row_is(
                        xs,
                        ys,
                        val,
                        prev@,
                        x_len as int,
                        yi - 1,
                    ),
            decreases y_len - yi,
        {
            let mut row: Vec<u64> = Vec::new();
            let mut xi: usize = 0;
            while xi < x_len
                invariant
                    self.map_ok(),
                    x_idx@ == xs,
                    y_idx@ == ys,
                    x_len == xs.len(),
                    y_len == ys.len(),
                    1 <= x_len <= self.w() + 1,
                    1 <= y_len <= self.h() + 1,
                    x_len + y_len > 2,
                    forall|k: int| 0 <= k < xs.len() ==> (#[trigger] xs[k]) < self.w(),
                    forall|k: int| 0 <= k < ys.len() ==> (#[trigger] ys[k]) < self.h(),
                    forall|v: usize| v <= MAX_CELL ==> #[trigger] h_fn.requires((v,)),
                    forall|v: usize, r: usize|
                        v <= MAX_CELL && #[trigger] h_fn.ensures((v,), r) ==> r <= MAX_CELL,
                    at_start <= MAX_CELL,
                    at_goal <= MAX_CELL,
                    h_fn.ensures(
                        (self.halite_map.at(xs[0] as int, ys[0] as int),),
                        at_start as usize,
                    ),
                    h_fn.ensures(
                        (self.halite_map.at(xs[x_len - 1] as int, ys[y_len - 1] as int),),
                        at_goal as usize,
                    ),
                    yi < y_len,
                    xi <= x_len,
                    row.len() == xi,
                    yi > 0 ==> prev.len() == x_len,
                    forall|k: int|
                        yi > 0 && 0 <= k < x_len ==> at_start <= (#[trigger] prev[k]) <= (k + yi)
                            * MAX_CELL,
                    forall|k: int|
                        0 <= k < xi ==> at_start <= (#[trigger] row[k]) <= (k + yi + 1) * MAX_CELL,
                    xi == x_len && yi == y_len - 1 ==> row[x_len - 1] >= at_start + at_goal,
                    forall|val: spec_fn(int) -> int| #[trigger]
                        obeys(*h_fn, val) && yi > 0 ==> self.row_is(
                            xs,
                            ys,
                            val,
                            prev@,
                            x_len as int,
                            yi - 1,
                        ),
                    forall|val: spec_fn(int) -> int| #[trigger]
                        obeys(*h_fn, val) ==> self.row_is(xs, ys, val, row@, xi as int, yi as int),
                decreases x_len - xi,
            {
                let x = x_idx[xi];
                let y = y_idx[yi];
                assert(xs[xi as int] < self.w());
                assert(ys[yi as int] < self.h());
                let here: u64 = if xi == 0 && yi == 0 {
                    at_start
                } else if xi == x_len - 1 && yi == y_len - 1 {
                    at_goal
                } else {
                    h_fn(*self.halite_map.get_idx(x, y)) as u64
                };
                assert(h_fn.ensures((self.halite_map.at(x as int, y as int),), here as usize));
                proof {
                    assert((xi + yi + 1) * MAX_CELL == (xi + yi) * MAX_CELL + MAX_CELL)
                        by (nonlinear_arith);
                    assert((xi + yi + 1) * MAX_CELL <= 65540 * MAX_CELL) by (nonlinear_arith)
                        requires
                            xi + yi + 1 <= 65540,
                    ;
                    if xi > 0 {
                        assert(row[xi as int - 1] <= (xi - 1 + yi + 1) * MAX_CELL);
                    }
                    if yi > 0 {
                        assert(prev[xi as int] <= (xi + yi) * MAX_CELL);
                    }
                }
                let total: u64 = if xi == 0 && yi == 0 {
                    here
                } else if yi == 0 {
                    here + row[xi - 1]
                } else if xi == 0 {
                    here + prev[0]
                } else {
                    let left = row[xi - 1];
                    let up = prev[xi];
                    here + if left <= up { left } else { up }
                };
                let ghost before = row@;
                row.push(total);
                proof {
                    assert forall|val: spec_fn(int) -> int| #[trigger]
                        obeys(*h_fn, val) implies self.row_is(
                        xs,
                        ys,
                        val,
                        row@,
                        xi as int + 1,
                        yi as int,
                    ) by {
                        assert(self.row_is(xs, ys, val, before, xi as int, yi as int));
                        self.lemma_staircase_step(xs, ys, val, xi as int, yi as int);
                        assert(here == self.corridor_cell(xs, ys, val, xi as int, yi as int));
                        if yi > 0 {
                            assert(self.row_is(xs, ys, val, prev@, x_len as int, yi - 1));
                            assert(prev[xi as int] == self.staircase(
                                xs,
                                ys,
                                val,
                                xi as int,
                                yi - 1,
                            ));
                        }
                        if xi > 0 {
                            assert(before[xi as int - 1] == self.staircase(
                                xs,
                                ys,
                                val,
                                xi as int - 1,
                                yi as int,
                            ));
                        }
                        assert forall|k: int| 0 <= k < xi + 1 implies (#[trigger] row@[k])
                            == self.staircase(xs, ys, val, k, yi as int) by {
                            if k < xi {
                                assert(row@[k] == before[k]);
                            }
                        }
                    }
                }
                xi += 1;
            }
            prev = row;
            yi += 1;
        }
        let sum = prev[x_len - 1];
        proof {
            assert((x_len - 1 + y_len) * MAX_CELL <= 65540 * MAX_CELL) by (nonlinear_arith)
                requires
                    x_len - 1 + y_len <= 65540,
            ;
            assert forall|val: spec_fn(int) -> int| #[trigger]
                obeys(*h_fn, val) implies sum - at_start - at_goal == self.corridor_sum(
                start,
                goal,
                val,
            ) by {
                assert(self.row_is(xs, ys, val, prev@, x_len as int, y_len - 1));
                assert(prev[x_len as int - 1] == self.staircase(
                    xs,
                    ys,
                    val,
                    x_len as int - 1,
                    y_len as int - 1,
                ));
            }
        }
        sum - at_start - at_goal
    }
}

} // verus!
