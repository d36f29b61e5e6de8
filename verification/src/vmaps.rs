//! For every cell, the nearest of a list of bases and the distance to it.

use vstd::prelude::*;
use crate::data::Point;
use crate::game::Game;
use crate::geometry::{
    axis_dist, distance_triangle, in_grid, lemma_axis_reach, lemma_wrap_cases, ring,
    ring_is_exact, square_even, torus_dist, valid_dims, wrap,
};
use crate::gmap::GMap;

verus! {

/// Distance from the cell `p` to the `k`-th base.
pub open spec fn base_dist(w: int, h: int, pts: Seq<Point>, p: Point, k: int) -> int {
    torus_dist(w, h, p, pts[k])
}

/// The `i`-th base is as near to `p` as any base, and nearer than every
/// base listed before it.
pub open spec fn first_nearest(w: int, h: int, pts: Seq<Point>, p: Point, i: int) -> bool {
    &&& 0 <= i < pts.len()
    &&& forall|k: int|
        0 <= k < pts.len() ==> base_dist(w, h, pts, p, i) <= #[trigger] base_dist(w, h, pts, p, k)
    &&& forall|k: int| 0 <= k < i ==> base_dist(w, h, pts, p, i) < #[trigger] base_dist(w, h, pts, p, k)
}

/// The first of the nearest among the first `n` bases.
pub open spec fn owner_upto(w: int, h: int, pts: Seq<Point>, p: Point, n: int) -> int
    decreases n,
{
    if n <= 1 {
        0
    } else {
        let b = owner_upto(w, h, pts, p, n - 1);
        if base_dist(w, h, pts, p, n - 1) < base_dist(w, h, pts, p, b) {
            n - 1
        } else {
            b
        }
    }
}

/// The base that a cell belongs to: the first of its nearest bases.
pub open spec fn owner(w: int, h: int, pts: Seq<Point>, p: Point) -> int {
    owner_upto(w, h, pts, p, pts.len() as int)
}

/// Distance from a cell to the base it belongs to.
pub open spec fn owner_dist(w: int, h: int, pts: Seq<Point>, p: Point) -> int {
    base_dist(w, h, pts, p, owner(w, h, pts, p))
}

/// Every listed base is a cell of the grid.
pub open spec fn bases_in_grid(w: int, h: int, pts: Seq<Point>) -> bool {
    forall|i: int| 0 <= i < pts.len() ==> in_grid(w, h, #[trigger] pts[i])
}

/// The owner among the first `n` bases is one of them; none of them is
/// nearer, and those listed before it are farther.
proof fn lemma_owner_upto(w: int, h: int, pts: Seq<Point>, p: Point, n: int)
    requires
        1 <= n <= pts.len(),
    ensures
        0 <= owner_upto(w, h, pts, p, n) < n,
        forall|k: int|
            0 <= k < n ==> base_dist(w, h, pts, p, owner_upto(w, h, pts, p, n)) <= #[trigger] base_dist(
                w,
                h,
                pts,
                p,
                k,
            ),
        forall|k: int|
            0 <= k < owner_upto(w, h, pts, p, n) ==> base_dist(
                w,
                h,
                pts,
                p,
                owner_upto(w, h, pts, p, n),
            ) < #[trigger] base_dist(w, h, pts, p, k),
    decreases n,
{
    if n > 1 {
        lemma_owner_upto(w, h, pts, p, n - 1);
    }
}

/// The owner of a cell is the first of its nearest bases.
pub proof fn lemma_owner(w: int, h: int, pts: Seq<Point>, p: Point)
    requires
        pts.len() > 0,
    ensures
        first_nearest(w, h, pts, p, owner(w, h, pts, p)),
{
    lemma_owner_upto(w, h, pts, p, pts.len() as int);
}

/// Only one base is the first of the nearest.
pub proof fn lemma_first_nearest_unique(w: int, h: int, pts: Seq<Point>, p: Point, i: int, j: int)
    requires
        first_nearest(w, h, pts, p, i),
        first_nearest(w, h, pts, p, j),
    ensures
        i == j,
{
    if i < j {
        assert(base_dist(w, h, pts, p, j) < base_dist(w, h, pts, p, i));
        assert(base_dist(w, h, pts, p, i) <= base_dist(w, h, pts, p, j));
    } else if j < i {
        assert(base_dist(w, h, pts, p, i) < base_dist(w, h, pts, p, j));
        assert(base_dist(w, h, pts, p, j) <= base_dist(w, h, pts, p, i));
    }
}

/// The place next to `a` on a circle of `n` places that is nearer to `c`.
pub open spec fn toward_axis(a: int, c: int, n: int) -> int {
    if axis_dist(wrap(a + 1, n), c, n) < axis_dist(a, c, n) {
        wrap(a + 1, n)
    } else {
        wrap(a - 1, n)
    }
}

/// One place towards `c` on a circle lies one nearer to `c` and one from
/// where it began.
proof fn lemma_toward_axis(a: int, c: int, n: int)
    requires
        n > 0,
        0 <= a < n,
        0 <= c < n,
        axis_dist(a, c, n) > 0,
    ensures
        0 <= toward_axis(a, c, n) < n,
        axis_dist(toward_axis(a, c, n), c, n) == axis_dist(a, c, n) - 1,
        axis_dist(a, toward_axis(a, c, n), n) == 1,
{
    lemma_wrap_cases(a + 1, n);
    lemma_wrap_cases(a - 1, n);
}

/// The cell next to `p` that lies one step nearer to `c`.
pub open spec fn toward(w: int, h: int, p: Point, c: Point) -> Point {
    if axis_dist(p.x as int, c.x as int, w) > 0 {
        Point { x: toward_axis(p.x as int, c.x as int, w) as isize, y: p.y }
    } else {
        Point { x: p.x, y: toward_axis(p.y as int, c.y as int, h) as isize }
    }
}

/// The cell one step towards `c` lies on the grid, one nearer to `c` and
/// one from `p`.
proof fn lemma_toward(w: int, h: int, p: Point, c: Point)
    requires
        valid_dims(w, h),
        in_grid(w, h, p),
        in_grid(w, h, c),
        torus_dist(w, h, p, c) > 0,
    ensures
        in_grid(w, h, toward(w, h, p, c)),
        torus_dist(w, h, toward(w, h, p, c), c) == torus_dist(w, h, p, c) - 1,
        torus_dist(w, h, p, toward(w, h, p, c)) == 1,
{
    if axis_dist(p.x as int, c.x as int, w) > 0 {
        lemma_toward_axis(p.x as int, c.x as int, w);
    } else {
        lemma_toward_axis(p.y as int, c.y as int, h);
    }
}

/// One step towards its owner a cell finds a cell of the same owner.
proof fn lemma_owner_one_closer(w: int, h: int, pts: Seq<Point>, p: Point)
    requires
        valid_dims(w, h),
        pts.len() > 0,
        bases_in_grid(w, h, pts),
        in_grid(w, h, p),
        owner_dist(w, h, pts, p) > 0,
    ensures
        in_grid(w, h, toward(w, h, p, pts[owner(w, h, pts, p)])),
        owner(w, h, pts, toward(w, h, p, pts[owner(w, h, pts, p)])) == owner(w, h, pts, p),
        owner_dist(w, h, pts, toward(w, h, p, pts[owner(w, h, pts, p)])) == owner_dist(
            w,
            h,
            pts,
            p,
        ) - 1,
{
    let o = owner(w, h, pts, p);
    lemma_owner(w, h, pts, p);
    let q = toward(w, h, p, pts[o]);
    lemma_toward(w, h, p, pts[o]);
    assert(base_dist(w, h, pts, q, o) == base_dist(w, h, pts, p, o) - 1);
    assert forall|k: int| 0 <= k < pts.len() implies base_dist(w, h, pts, q, o) <= #[trigger] base_dist(
        w,
        h,
        pts,
        q,
        k,
    ) by {
        distance_triangle(w, h, p, q, pts[k]);
        assert(base_dist(w, h, pts, p, o) <= base_dist(w, h, pts, p, k));
    }
    assert forall|k: int| 0 <= k < o implies base_dist(w, h, pts, q, o) < #[trigger] base_dist(
        w,
        h,
        pts,
        q,
        k,
    ) by {
        distance_triangle(w, h, p, q, pts[k]);
        assert(base_dist(w, h, pts, p, o) < base_dist(w, h, pts, p, k));
    }
    assert(first_nearest(w, h, pts, q, o));
    lemma_owner(w, h, pts, q);
    lemma_first_nearest_unique(w, h, pts, q, o, owner(w, h, pts, q));
}

/// A base that owns a cell owns a cell at every smaller distance too.
proof fn lemma_owner_at_level(w: int, h: int, pts: Seq<Point>, p: Point, d: int) -> (q: Point)
    requires
        valid_dims(w, h),
        pts.len() > 0,
        bases_in_grid(w, h, pts),
        in_grid(w, h, p),
        0 <= d <= owner_dist(w, h, pts, p),
    ensures
        in_grid(w, h, q),
        owner(w, h, pts, q) == owner(w, h, pts, p),
        owner_dist(w, h, pts, q) == d,
    decreases owner_dist(w, h, pts, p) - d,
{
    if owner_dist(w, h, pts, p) == d {
        p
    } else {
        lemma_owner_one_closer(w, h, pts, p);
        lemma_owner_at_level(w, h, pts, toward(w, h, p, pts[owner(w, h, pts, p)]), d)
    }
}

/// No two cells of a grid lie farther apart than half its sides together.
pub proof fn lemma_distance_bound(w: int, h: int, a: Point, b: Point)
    requires
        valid_dims(w, h),
        in_grid(w, h, a),
        in_grid(w, h, b),
    ensures
        0 <= torus_dist(w, h, a, b) <= w / 2 + h / 2,
{
    lemma_axis_reach(a.x as int, b.x as int, w);
    lemma_axis_reach(a.y as int, b.y as int, h);
}

impl Game {
    /// What the distance table holds for a cell that no base has claimed yet.
    pub open spec fn unclaimed(&self) -> int {
        self.w() + self.h() + 1
    }

    /// State of the cell `p` when the flood has finished every radius below
    /// `d`, and at radius `d` every base before the `j`-th.
    spec fn claim_ok(
        &self,
        pts: Seq<Point>,
        idx: GMap<usize>,
        dm: GMap<usize>,
        d: int,
        j: int,
        p: Point,
    ) -> bool {
        let o = owner(self.w(), self.h(), pts, p);
        let dd = owner_dist(self.w(), self.h(), pts, p);
        if dd < d || (dd == d && o < j) {
            idx.at_pos(p) == o && dm.at_pos(p) == dd
        } else {
            dm.at_pos(p) == self.unclaimed()
        }
    }

    /// State of the cell `p` while the `j`-th base walks its ring of radius
    /// `d` and has looked at the first `t` cells of it.
    spec fn ring_claim_ok(
        &self,
        pts: Seq<Point>,
        idx: GMap<usize>,
        dm: GMap<usize>,
        d: int,
        j: int,
        cells: Seq<Point>,
        t: int,
        update: bool,
        p: Point,
    ) -> bool {
        let o = owner(self.w(), self.h(), pts, p);
        let dd = owner_dist(self.w(), self.h(), pts, p);
        if dd < d || (dd == d && o < j) {
            idx.at_pos(p) == o && dm.at_pos(p) == dd
        } else if dd == d && o == j {
            if dm.at_pos(p) == self.unclaimed() {
                forall|k: int| 0 <= k < t ==> cells[k] != p
            } else {
                update && idx.at_pos(p) == j && dm.at_pos(p) == d
            }
        } else {
            dm.at_pos(p) == self.unclaimed()
        }
    }

    /// The cell `p` belongs to the `j`-th base and lies at distance `d` from it.
    spec fn owns_at(&self, pts: Seq<Point>, j: int, d: int, p: Point) -> bool {
        &&& self.contains(p)
        &&& owner(self.w(), self.h(), pts, p) == j
        &&& owner_dist(self.w(), self.h(), pts, p) == d
    }

    /// A base that still has the cell `p` to claim is open.
    spec fn open_ok(&self, pts: Seq<Point>, open: Seq<bool>, d: int, j: int, p: Point) -> bool {
        let o = owner(self.w(), self.h(), pts, p);
        let dd = owner_dist(self.w(), self.h(), pts, p);
        dd >= (if o < j { d + 1 } else { d }) ==> open[o]
    }

    /// The tables for a single base: its index everywhere, and the distance
    /// to it, filled in ring by ring.
    #[verifier::spinoff_prover]
    fn single_base_maps(&self, base: Point) -> (r: (GMap<usize>, GMap<usize>))
        requires
            square_even(self.w(), self.h()),
            self.contains(base),
        ensures
            r.0.wf(self.w(), self.h()),
            r.1.wf(self.w(), self.h()),
            forall|p: Point| self.contains(p) ==> #[trigger] r.0.at_pos(p) == 0,
            forall|p: Point|
                self.contains(p) ==> #[trigger] r.1.at_pos(p) == torus_dist(
                    self.w(),
                    self.h(),
                    p,
                    base,
                ),
    {
        let nearest_pt_idx = GMap::filled(self.width, self.height, 0usize);
        let mut nearest_pt_dist = GMap::filled(self.width, self.height, 0usize);
        let mut d: usize = 0;
        while d <= self.width
            invariant
                square_even(self.w(), self.h()),
                self.contains(base),
                d <= self.width + 1,
                nearest_pt_dist.wf(self.w(), self.h()),
                forall|p: Point|
                    self.contains(p) && torus_dist(self.w(), self.h(), p, base) < d
                        ==> #[trigger] nearest_pt_dist.at_pos(p) == torus_dist(
                        self.w(),
                        self.h(),
                        p,
                        base,
                    ),
            decreases self.width + 1 - d,
        {
            let cells = self.tiles_at_dist(base, d);
            proof {
                ring_is_exact(self.w(), self.h(), base, d as int);
                assert forall|k: int| 0 <= k < cells.len() implies self.contains(#[trigger] cells[k]) by {
                    self.lemma_ring_in_grid(base, d as int, k);
                }
            }
            let mut t: usize = 0;
            while t < cells.len()
                invariant
                    square_even(self.w(), self.h()),
                    self.contains(base),
                    d <= self.width,
                    t <= cells.len(),
                    cells@ == ring(self.w(), self.h(), base, d as int),
                    forall|k: int| 0 <= k < cells.len() ==> self.contains(#[trigger] cells[k]),
                    forall|p: Point|
                        cells@.contains(p) <==> in_grid(self.w(), self.h(), p) && torus_dist(
                            self.w(),
                            self.h(),
                            p,
                            base,
                        ) == d,
                    nearest_pt_dist.wf(self.w(), self.h()),
                    forall|p: Point|
                        self.contains(p) && torus_dist(self.w(), self.h(), p, base) < d
                            ==> #[trigger] nearest_pt_dist.at_pos(p) == torus_dist(
                            self.w(),
                            self.h(),
                            p,
                            base,
                        ),
                    forall|k: int| 0 <= k < t ==> nearest_pt_dist.at_pos(#[trigger] cells[k]) == d,
                decreases cells.len() - t,
            {
                let p = cells[t];
                assert(self.contains(cells[t as int]));
                assert(cells@.contains(p));
                nearest_pt_dist.set(p, d);
                proof {
                    assert forall|k: int| 0 <= k < t + 1 implies nearest_pt_dist.at_pos(
                        #[trigger] cells[k],
                    ) == d by {
                        assert(self.contains(cells[k]));
                    }
                }
                t += 1;
            }
            proof {
                assert forall|p: Point|
                    self.contains(p) && torus_dist(self.w(), self.h(), p, base) < d
                        + 1 implies #[trigger] nearest_pt_dist.at_pos(p) == torus_dist(
                    self.w(),
                    self.h(),
                    p,
                    base,
                ) by {
                    if torus_dist(self.w(), self.h(), p, base) == d {
                        assert(cells@.contains(p));
                        let k = choose|k: int| 0 <= k < cells.len() && cells[k] == p;
                        assert(nearest_pt_dist.at_pos(cells[k]) == d);
                    }
                }
            }
            d += 1;
        }
        proof {
            assert forall|p: Point| self.contains(p) implies #[trigger] nearest_pt_idx.at_pos(p)
                == 0 by {
                assert(nearest_pt_idx.at(p.x as int, p.y as int) == 0);
            }
            assert forall|p: Point| self.contains(p) implies #[trigger] nearest_pt_dist.at_pos(
                p,
            ) == torus_dist(self.w(), self.h(), p, base) by {
                lemma_distance_bound(self.w(), self.h(), p, base);
            }
        }
        (nearest_pt_idx, nearest_pt_dist)
    }

    /// Lets the `j`-th base claim the unclaimed cells of its ring of radius `d`.
    #[verifier::spinoff_prover]
    fn claim_ring(
        &self,
        pts: &Vec<Point>,
        idx_map: &mut GMap<usize>,
        dist_map: &mut GMap<usize>,
        d: usize,
        j: usize,
    ) -> (update: bool)
        requires
            square_even(self.w(), self.h()),
            bases_in_grid(self.w(), self.h(), pts@),
            j < pts.len(),
            d <= self.width,
            old(idx_map).wf(self.w(), self.h()),
            old(dist_map).wf(self.w(), self.h()),
            forall|p: Point|
                self.contains(p) ==> #[trigger] self.claim_ok(
                    pts@,
                    *old(idx_map),
                    *old(dist_map),
                    d as int,
                    j as int,
                    p,
                ),
        ensures
            final(idx_map).wf(self.w(), self.h()),
            final(dist_map).wf(self.w(), self.h()),
            forall|p: Point|
                self.contains(p) ==> #[trigger] self.claim_ok(
                    pts@,
                    *final(idx_map),
                    *final(dist_map),
                    d as int,
                    j as int + 1,
                    p,
                ),
            (update <==> exists|p: Point| #[trigger]
                self.owns_at(pts@, j as int, d as int, p)),
    {
        let far: usize = self.width + self.height + 1;
        let cells = self.tiles_at_dist(pts[j], d);
        proof {
            ring_is_exact(self.w(), self.h(), pts[j as int], d as int);
            assert forall|k: int| 0 <= k < cells.len() implies self.contains(#[trigger] cells[k]) by {
                self.lemma_ring_in_grid(pts[j as int], d as int, k);
            }
        }
        let mut update = false;
        let mut t: usize = 0;
        proof {
            assert forall|p: Point| self.contains(p) implies #[trigger] self.ring_claim_ok(
                pts@,
                *idx_map,
                *dist_map,
                d as int,
                j as int,
                cells@,
                0,
                update,
                p,
            ) by {
                assert(self.claim_ok(pts@, *idx_map, *dist_map, d as int, j as int, p));
            }
        }
        while t < cells.len()
            invariant
                square_even(self.w(), self.h()),
                bases_in_grid(self.w(), self.h(), pts@),
                j < pts.len(),
                d <= self.width,
                far == self.unclaimed(),
                t <= cells.len(),
                idx_map.wf(self.w(), self.h()),
                dist_map.wf(self.w(), self.h()),
                forall|k: int| 0 <= k < cells.len() ==> self.contains(#[trigger] cells[k]),
                forall|p: Point|
                    cells@.contains(p) <==> in_grid(self.w(), self.h(), p) && torus_dist(
                        self.w(),
                        self.h(),
                        p,
                        pts[j as int],
                    ) == d,
                forall|p: Point|
                    self.contains(p) ==> #[trigger] self.ring_claim_ok(
                        pts@,
                        *idx_map,
                        *dist_map,
                        d as int,
                        j as int,
                        cells@,
                        t as int,
                        update,
                        p,
                    ),
                update ==> exists|p: Point| #[trigger]
                    self.owns_at(pts@, j as int, d as int, p),
            decreases cells.len() - t,
        {
            let p = cells[t];
            assert(self.contains(cells[t as int]));
            assert(cells@.contains(p));
            let ghost idx0 = *idx_map;
            let ghost dist0 = *dist_map;
            let ghost update0 = update;
            assert(self.ring_claim_ok(pts@, idx0, dist0, d as int, j as int, cells@, t as int, update0, p));
            if *dist_map.get(p) == far {
                proof {
                    lemma_owner(self.w(), self.h(), pts@, p);
                    let o = owner(self.w(), self.h(), pts@, p);
                    lemma_distance_bound(self.w(), self.h(), p, pts@[o]);
                    assert(base_dist(self.w(), self.h(), pts@, p, j as int) == d);
                    assert(o == j && owner_dist(self.w(), self.h(), pts@, p) == d);
                    assert(self.owns_at(pts@, j as int, d as int, p));
                }
                idx_map.set(p, j);
                dist_map.set(p, d);
                update = true;
                proof {
                    assert forall|q: Point| self.contains(q) implies #[trigger] self.ring_claim_ok(
                        pts@,
                        *idx_map,
                        *dist_map,
                        d as int,
                        j as int,
                        cells@,
                        t as int + 1,
                        update,
                        q,
                    ) by {
                        assert(self.ring_claim_ok(
                            pts@,
                            idx0,
                            dist0,
                            d as int,
                            j as int,
                            cells@,
                            t as int,
                            update0,
                            q,
                        ));
                        assert(idx0.has(q) && dist0.has(q));
                        assert(idx_map.at_pos(q) == (if q == p { j } else { idx0.at_pos(q) }));
                        assert(dist_map.at_pos(q) == (if q == p { d } else { dist0.at_pos(q) }));
                    }
                }
            } else {
                proof {
                    assert forall|q: Point| self.contains(q) implies #[trigger] self.ring_claim_ok(
                        pts@,
                        *idx_map,
                        *dist_map,
                        d as int,
                        j as int,
                        cells@,
                        t as int + 1,
                        update,
                        q,
                    ) by {
                        assert(self.ring_claim_ok(
                            pts@,
                            idx0,
                            dist0,
                            d as int,
                            j as int,
                            cells@,
                            t as int,
                            update0,
                            q,
                        ));
                    }
                }
            }
            t += 1;
        }
        proof {
            assert forall|q: Point| self.contains(q) implies #[trigger] self.claim_ok(
                pts@,
                *idx_map,
                *dist_map,
                d as int,
                j as int + 1,
                q,
            ) by {
                assert(self.ring_claim_ok(
                    pts@,
                    *idx_map,
                    *dist_map,
                    d as int,
                    j as int,
                    cells@,
                    t as int,
                    update,
                    q,
                ));
                lemma_owner(self.w(), self.h(), pts@, q);
                if owner(self.w(), self.h(), pts@, q) == j
                    && owner_dist(self.w(), self.h(), pts@, q) == d {
                    assert(cells@.contains(q));
                    let k = choose|k: int| 0 <= k < cells.len() && cells[k] == q;
                    assert(cells[k] == q);
                }
            }
            if !update {
                assert forall|q: Point| !#[trigger] self.owns_at(pts@, j as int, d as int, q) by {
                    if self.owns_at(pts@, j as int, d as int, q) {
                        assert(self.ring_claim_ok(
                            pts@,
                            *idx_map,
                            *dist_map,
                            d as int,
                            j as int,
                            cells@,
                            t as int,
                            update,
                            q,
                        ));
                        assert(cells@.contains(q));
                        let k = choose|k: int| 0 <= k < cells.len() && cells[k] == q;
                        assert(cells[k] == q);
                    }
                }
            }
        }
        update
    }

    /// For every cell of a square grid of even side, the index of the base
    /// it belongs to and its distance to that base. A cell belongs to the
    /// nearest base; among several at the same distance, to the one that is
    /// listed first.
    ///
    /// The tables are filled by a flood that grows all bases' rings in step.
    /// A base whose ring claimed no cell stops growing.
    #[verifier::spinoff_prover]
    pub fn make_vmaps(&self, pts: &Vec<Point>) -> (r: (GMap<usize>, GMap<usize>))
        requires
            square_even(self.w(), self.h()),
            pts.len() > 0,
            bases_in_grid(self.w(), self.h(), pts@),
        ensures
            r.0.wf(self.w(), self.h()),
            r.1.wf(self.w(), self.h()),
            forall|p: Point|
                self.contains(p) ==> first_nearest(
                    self.w(),
                    self.h(),
                    pts@,
                    p,
                    #[trigger] r.0.at_pos(p) as int,
                ) && r.1.at_pos(p) == base_dist(self.w(), self.h(), pts@, p, r.0.at_pos(p) as int),
    {
        let nd = pts.len();
        if nd == 1 {
            let r = self.single_base_maps(pts[0]);
            proof {
                assert forall|p: Point| self.contains(p) implies first_nearest(
                    self.w(),
                    self.h(),
                    pts@,
                    p,
                    #[trigger] r.0.at_pos(p) as int,
                ) && r.1.at_pos(p) == base_dist(
                    self.w(),
                    self.h(),
                    pts@,
                    p,
                    r.0.at_pos(p) as int,
                ) by {
                    assert(r.0.at_pos(p) == 0);
                }
            }
            return r;
        }
        let far: usize = self.width + self.height + 1;
        let mut open: Vec<bool> = Vec::new();
        let mut b: usize = 0;
        while b < nd
            invariant
                b <= nd,
                open.len() == b,
                forall|i: int| 0 <= i < b ==> open[i],
            decreases nd - b,
        {
            open.push(true);
            b += 1;
        }
        let mut nearest_pt_idx = GMap::filled(self.width, self.height, 0usize);
        let mut nearest_pt_dist = GMap::filled(self.width, self.height, far);
        proof {
            assert forall|p: Point| self.contains(p) implies #[trigger] self.claim_ok(
                pts@,
                nearest_pt_idx,
                nearest_pt_dist,
                0,
                0,
                p,
            ) by {
                lemma_owner(self.w(), self.h(), pts@, p);
                lemma_distance_bound(
                    self.w(),
                    self.h(),
                    p,
                    pts@[owner(self.w(), self.h(), pts@, p)],
                );
                assert(nearest_pt_dist.at(p.x as int, p.y as int) == far);
            }
            assert forall|p: Point| self.contains(p) implies #[trigger] self.open_ok(
                pts@,
                open@,
                0,
                0,
                p,
            ) by {
                lemma_owner(self.w(), self.h(), pts@, p);
            }
        }
        let mut d: usize = 0;
        while d <= self.width
            invariant
                square_even(self.w(), self.h()),
                bases_in_grid(self.w(), self.h(), pts@),
                nd == pts.len(),
                nd > 0,
                open.len() == nd,
                d <= self.width + 1,
                nearest_pt_idx.wf(self.w(), self.h()),
                nearest_pt_dist.wf(self.w(), self.h()),
                forall|p: Point|
                    self.contains(p) ==> #[trigger] self.claim_ok(
                        pts@,
                        nearest_pt_idx,
                        nearest_pt_dist,
                        d as int,
                        0,
                        p,
                    ),
                forall|p: Point|
                    self.contains(p) ==> #[trigger] self.open_ok(pts@, open@, d as int, 0, p),
            decreases self.width + 1 - d,
        {
            let mut d_idx: usize = 0;
            while d_idx < nd
                invariant
                    square_even(self.w(), self.h()),
                    bases_in_grid(self.w(), self.h(), pts@),
                    nd == pts.len(),
                    nd > 0,
                    open.len() == nd,
                    d <= self.width,
                    d_idx <= nd,
                    nearest_pt_idx.wf(self.w(), self.h()),
                    nearest_pt_dist.wf(self.w(), self.h()),
                    forall|p: Point|
                        self.contains(p) ==> #[trigger] self.claim_ok(
                            pts@,
                            nearest_pt_idx,
                            nearest_pt_dist,
                            d as int,
                            d_idx as int,
                            p,
                        ),
                    forall|p: Point|
                        self.contains(p) ==> #[trigger] self.open_ok(
                            pts@,
                            open@,
                            d as int,
                            d_idx as int,
                            p,
                        ),
                decreases nd - d_idx,
            {
                let ghost open0 = open@;
                if open[d_idx] {
                    let update = self.claim_ring(
                        pts,
                        &mut nearest_pt_idx,
                        &mut nearest_pt_dist,
                        d,
                        d_idx,
                    );
                    open.set(d_idx, update);
                    proof {
                        assert forall|p: Point| self.contains(p) implies #[trigger] self.open_ok(
                            pts@,
                            open@,
                            d as int,
                            d_idx as int + 1,
                            p,
                        ) by {
                            assert(self.open_ok(pts@, open0, d as int, d_idx as int, p));
                            lemma_owner(self.w(), self.h(), pts@, p);
                            if owner(
                                self.w(),
                                self.h(),
                                pts@,
                                p,
                            ) == d_idx && owner_dist(self.w(), self.h(), pts@, p) >= d + 1 {
                                let q = lemma_owner_at_level(self.w(), self.h(), pts@, p, d as int);
                                assert(self.owns_at(pts@, d_idx as int, d as int, q));
                                assert(update);
                            }
                        }
                    }
                } else {
                    proof {
                        assert forall|p: Point| self.contains(p) implies #[trigger] self.claim_ok(
                            pts@,
                            nearest_pt_idx,
                            nearest_pt_dist,
                            d as int,
                            d_idx as int + 1,
                            p,
                        ) by {
                            assert(self.claim_ok(
                                pts@,
                                nearest_pt_idx,
                                nearest_pt_dist,
                                d as int,
                                d_idx as int,
                                p,
                            ));
                            assert(self.open_ok(pts@, open0, d as int, d_idx as int, p));
                        }
                        assert forall|p: Point| self.contains(p) implies #[trigger] self.open_ok(
                            pts@,
                            open@,
                            d as int,
                            d_idx as int + 1,
                            p,
                        ) by {
                            assert(self.open_ok(pts@, open0, d as int, d_idx as int, p));
                        }
                    }
                }
                d_idx += 1;
            }
            proof {
                assert forall|p: Point| self.contains(p) implies #[trigger] self.claim_ok(
                    pts@,
                    nearest_pt_idx,
                    nearest_pt_dist,
                    d as int + 1,
                    0,
                    p,
                ) by {
                    assert(self.claim_ok(
                        pts@,
                        nearest_pt_idx,
                        nearest_pt_dist,
                        d as int,
                        nd as int,
                        p,
                    ));
                    lemma_owner(self.w(), self.h(), pts@, p);
                }
                assert forall|p: Point| self.contains(p) implies #[trigger] self.open_ok(
                    pts@,
                    open@,
                    d as int + 1,
                    0,
                    p,
                ) by {
                    assert(self.open_ok(pts@, open@, d as int, nd as int, p));
                    lemma_owner(self.w(), self.h(), pts@, p);
                }
            }
            d += 1;
        }
        proof {
            assert forall|p: Point|
                self.contains(p) implies first_nearest(
                self.w(),
                self.h(),
                pts@,
                p,
                #[trigger] nearest_pt_idx.at_pos(p) as int,
            ) && nearest_pt_dist.at_pos(p) == base_dist(
                self.w(),
                self.h(),
                pts@,
                p,
                nearest_pt_idx.at_pos(p) as int,
            ) by {
                assert(self.claim_ok(
                    pts@,
                    nearest_pt_idx,
                    nearest_pt_dist,
                    self.w() + 1,
                    0,
                    p,
                ));
                lemma_owner(self.w(), self.h(), pts@, p);
                lemma_distance_bound(
                    self.w(),
                    self.h(),
                    p,
                    pts@[owner(self.w(), self.h(), pts@, p)],
                );
            }
        }
        (nearest_pt_idx, nearest_pt_dist)
    }
}

} // verus!
