//! Best-first search for the cheapest ways from one cell to others.

use vstd::prelude::*;
use vstd::arithmetic::div_mod::lemma_fundamental_div_mod_converse;
use vstd::set_lib::{lemma_int_range, lemma_set_subset_finite, set_int_range};
use crate::data::{Direction, Point};
use crate::game::{Game, MAX_CELL};
use crate::geometry::{in_grid, valid_dims};
use crate::gmap::GMap;
use crate::priority::{pop_least, CellPriority};
use crate::vmaps::lemma_distance_bound;
use crate::walks::{adjacent, MAX_STEP_COST};

verus! {

/// The cells of a grid.
pub open spec fn grid_cells(w: int, h: int) -> Set<Point> {
    Set::new(|p: Point| in_grid(w, h, p))
}

/// A grid has finitely many cells.
#[verifier::spinoff_prover]
pub proof fn lemma_grid_finite(w: int, h: int)
    requires
        valid_dims(w, h),
    ensures
        grid_cells(w, h).finite(),
{
    let range = set_int_range(0, w * h);
    lemma_int_range(0, w * h);
    let f = |i: int| Point { x: (i % w) as isize, y: (i / w) as isize };
    range.lemma_map_finite(f);
    assert(grid_cells(w, h).subset_of(range.map(f))) by {
        assert forall|p: Point| grid_cells(w, h).contains(p) implies range.map(f).contains(p) by {
            let i = p.y * w + p.x;
            lemma_fundamental_div_mod_converse(i, w, p.y as int, p.x as int);
            assert(0 <= i < w * h) by (nonlinear_arith)
                requires
                    0 <= p.x < w,
                    0 <= p.y < h,
                    i == p.y * w + p.x,
            ;
            assert(range.contains(i));
            assert(f(i) == p);
        }
    }
    lemma_set_subset_finite(range.map(f), grid_cells(w, h));
}

/// The state of a search.
pub struct Search {
    /// The least cost found so far of a way from the root to each cell.
    pub cost: GMap<Option<i64>>,
    /// The cell before each cell on the cheapest way found so far.
    pub came_from: GMap<Option<Point>>,
    /// The cells whose cost is final.
    pub explored: GMap<bool>,
    /// The cells waiting to be explored, each with its cost and the
    /// estimate of what is left from there.
    pub frontier: Vec<CellPriority>,
}

/// The queue holds the cell `c` with the weight `f`.
pub open spec fn live(frontier: Seq<CellPriority>, c: Point, f: int) -> bool {
    exists|i: int| 0 <= i < frontier.len() && (#[trigger] frontier[i]).pos == c && frontier[i].w == f
}

impl Game {
    /// Estimate of what is left from `c`: `k` for every step to `anchor`.
    pub open spec fn estimate(&self, anchor: Point, c: Point, k: int) -> int {
        k * self.distance(anchor, c)
    }

    /// No way from `root` to `c` costs less than `g`.
    pub open spec fn is_floor(&self, root: Point, c: Point, k: int, g: int) -> bool {
        forall|p: Seq<Point>| #[trigger] self.walk_between(p, root, c) ==> self.walk_cost(p, k) >= g
    }

    /// No cost that the search meets exceeds this.
    pub open spec fn cost_cap(&self, k: int) -> int {
        (self.w() / 2 + self.h() / 2 + 1) * (k + MAX_CELL)
    }

    /// The cells explored so far.
    pub open spec fn explored_cells(&self, s: Search) -> Set<Point> {
        Set::new(|p: Point| self.contains(p) && s.explored.at_pos(p))
    }

    /// What the search knows of the cell `c` is sound.
    pub open spec fn cell_ok(
        &self,
        s: Search,
        walks: Map<Point, Seq<Point>>,
        root: Point,
        anchor: Point,
        k: int,
        c: Point,
    ) -> bool {
        match s.cost.at_pos(c) {
            Some(g) => {
                &&& walks.contains_key(c)
                &&& self.walk_between(walks[c], root, c)
                &&& self.walk_cost(walks[c], k) == g
                &&& 0 <= g <= self.cost_cap(k)
                &&& (s.explored.at_pos(c) ==> self.is_floor(root, c, k, g as int) && g + k
                    + MAX_CELL <= self.cost_cap(k))
                &&& (!s.explored.at_pos(c) ==> live(s.frontier@, c, g + self.estimate(anchor, c, k)))
                &&& match s.came_from.at_pos(c) {
                    Some(p) => self.contains(p) && s.explored.at_pos(p) && adjacent(
                        self.w(),
                        self.h(),
                        p,
                        c,
                    ) && walks.contains_key(p) && walks[c] == walks[p].push(c),
                    None => c == root && walks[c] == seq![root],
                }
            },
            None => !s.explored.at_pos(c) && s.came_from.at_pos(c).is_none(),
        }
    }

    /// The `i`-th neighbour of the explored cell `c` has been reached from it.
    pub open spec fn nb_ok(&self, s: Search, k: int, c: Point, i: int) -> bool {
        let n = self.stepped(c, Direction::adjacent()[i]);
        match (s.cost.at_pos(n), s.cost.at_pos(c)) {
            (Some(gn), Some(g)) => gn <= g + k + self.halite(n),
            _ => false,
        }
    }

    /// The `i`-th entry of the queue is no less than its cell's cost and estimate.
    pub open spec fn entry_ok(&self, s: Search, anchor: Point, k: int, i: int) -> bool {
        let e = s.frontier[i];
        self.contains(e.pos) && match s.cost.at_pos(e.pos) {
            Some(g) => g + self.estimate(anchor, e.pos, k) <= e.w,
            None => false,
        }
    }

    /// The `i`-th neighbour of `c` is still to be reached from `c`, which
    /// is the cell being explored.
    pub open spec fn pending(busy: Option<(Point, int)>, c: Point, i: int) -> bool {
        match busy {
            Some(b) => b.0 == c && i >= b.1,
            None => false,
        }
    }

    /// What holds of a search at every step: every cost is that of a way
    /// found, the cost of an explored cell is that of a cheapest way, the
    /// neighbours of an explored cell have been reached from it, and every
    /// cell reached and not explored waits in the queue.
    pub open spec fn search_inv(
        &self,
        s: Search,
        walks: Map<Point, Seq<Point>>,
        root: Point,
        anchor: Point,
        k: int,
        busy: Option<(Point, int)>,
    ) -> bool {
        &&& s.cost.wf(self.w(), self.h())
        &&& s.came_from.wf(self.w(), self.h())
        &&& s.explored.wf(self.w(), self.h())
        &&& s.cost.at_pos(root) == Some(0i64)
        &&& forall|c: Point| self.contains(c) ==> #[trigger] self.cell_ok(s, walks, root, anchor, k, c)
        &&& forall|c: Point, i: int|
            self.contains(c) && s.explored.at_pos(c) && 0 <= i < 4 && !Self::pending(busy, c, i)
                ==> #[trigger] self.nb_ok(s, k, c, i)
        &&& forall|i: int| 0 <= i < s.frontier.len() ==> #[trigger] self.entry_ok(s, anchor, k, i)
    }

    /// The bounds within which the costs of a search stay.
    pub proof fn lemma_cost_cap(&self, k: int)
        requires
            self.dims_ok(),
            0 <= k <= MAX_STEP_COST,
        ensures
            0 <= self.cost_cap(k) <= 0x2_0000_0000_0000,
            forall|a: Point, b: Point|
                self.contains(a) && self.contains(b) ==> 0 <= #[trigger] self.estimate(a, b, k)
                    <= 0x2_0000_0000_0000,
            forall|a: Point, b: Point|
                self.contains(a) && self.contains(b) ==> #[trigger] self.distance(a, b) * (k
                    + MAX_CELL) + k + MAX_CELL <= self.cost_cap(k),
    {
        let reach = self.w() / 2 + self.h() / 2 + 1;
        assert(0 <= reach * (k + MAX_CELL) <= 0x2_0000_0000_0000) by (nonlinear_arith)
            requires
                1 <= reach <= 32769,
                0 <= k + MAX_CELL <= 0x1_0000_0000 + 4294967295,
        ;
        assert forall|a: Point, b: Point| self.contains(a) && self.contains(b) implies 0
            <= #[trigger] self.estimate(a, b, k) <= 0x2_0000_0000_0000 by {
            lemma_distance_bound(self.w(), self.h(), a, b);
            let d = self.distance(a, b);
            assert(0 <= k * d <= 0x2_0000_0000_0000) by (nonlinear_arith)
                requires
                    0 <= d <= 32768,
                    0 <= k <= 0x1_0000_0000,
            ;
        }
        assert forall|a: Point, b: Point|
            self.contains(a) && self.contains(b) implies #[trigger] self.distance(a, b) * (k
            + MAX_CELL) + k + MAX_CELL <= self.cost_cap(k) by {
            lemma_distance_bound(self.w(), self.h(), a, b);
            let d = self.distance(a, b);
            assert(d * (k + MAX_CELL) + k + MAX_CELL <= reach * (k + MAX_CELL))
                by (nonlinear_arith)
                requires
                    0 <= d <= reach - 1,
                    0 <= k + MAX_CELL,
            ;
        }
    }

    /// The first cell of a way that is not explored, if its `n`-th is not.
    pub proof fn lemma_first_unexplored(&self, s: Search, p: Seq<Point>, from: int, n: int) -> (i:
        int)
        requires
            0 <= from <= n < p.len(),
            !s.explored.at_pos(p[n]),
            forall|j: int| 0 <= j < from ==> s.explored.at_pos(#[trigger] p[j]),
        ensures
            from <= i <= n,
            !s.explored.at_pos(p[i]),
            forall|j: int| 0 <= j < i ==> s.explored.at_pos(#[trigger] p[j]),
        decreases n - from,
    {
        if !s.explored.at_pos(p[from]) {
            from
        } else {
            self.lemma_first_unexplored(s, p, from + 1, n)
        }
    }

    /// A neighbour is reached by a step in one of the four directions.
    pub proof fn lemma_adjacent_index(&self, a: Point, b: Point) -> (i: int)
        requires
            adjacent(self.w(), self.h(), a, b),
        ensures
            0 <= i < 4,
            self.stepped(a, Direction::adjacent()[i]) == b,
    {
        if b == self.stepped(a, Direction::North) {
            0
        } else if b == self.stepped(a, Direction::East) {
            1
        } else if b == self.stepped(a, Direction::South) {
            2
        } else {
            3
        }
    }

    /// On any way from the root, the first cell that is not explored has
    /// been reached at no more than the way costs up to it.
    pub proof fn lemma_border(
        &self,
        s: Search,
        walks: Map<Point, Seq<Point>>,
        root: Point,
        anchor: Point,
        k: int,
        p: Seq<Point>,
        i: int,
    )
        requires
            self.map_ok(),
            0 <= k,
            self.search_inv(s, walks, root, anchor, k, None),
            self.is_walk(p),
            p[0] == root,
            0 <= i < p.len(),
            !s.explored.at_pos(p[i]),
            forall|j: int| 0 <= j < i ==> s.explored.at_pos(#[trigger] p[j]),
        ensures
            s.cost.at_pos(p[i]).is_some(),
            s.cost.at_pos(p[i]).unwrap() <= self.walk_cost(p.subrange(0, i + 1), k),
    {
        self.lemma_walk_prefix(p, i + 1);
        if i == 0 {
            assert(p.subrange(0, 1).len() == 1);
        } else {
            let u = p[i - 1];
            let v = p[i];
            assert(self.contains(u));
            assert(self.contains(v));
            assert(s.explored.at_pos(u));
            assert(self.cell_ok(s, walks, root, anchor, k, u));
            self.lemma_walk_prefix(p, i);
            assert(self.walk_between(p.subrange(0, i), root, u));
            let d = self.lemma_adjacent_index(u, v);
            assert(self.nb_ok(s, k, u, d));
            let pre = p.subrange(0, i + 1);
            assert(pre.drop_last() == p.subrange(0, i));
            assert(pre.last() == v);
        }
    }

    /// The cell that leaves the queue first has been reached by a cheapest way.
    pub proof fn lemma_least_is_final(
        &self,
        s: Search,
        walks: Map<Point, Seq<Point>>,
        root: Point,
        anchor: Point,
        k: int,
        e: CellPriority,
    )
        requires
            self.map_ok(),
            self.contains(anchor),
            self.contains(root),
            0 <= k <= MAX_STEP_COST,
            self.search_inv(s, walks, root, anchor, k, None),
            s.frontier@.contains(e),
            forall|i: int| 0 <= i < s.frontier.len() ==> e.w <= (#[trigger] s.frontier[i]).w,
            !s.explored.at_pos(e.pos),
        ensures
            s.cost.at_pos(e.pos).is_some(),
            self.is_floor(root, e.pos, k, s.cost.at_pos(e.pos).unwrap() as int),
            s.cost.at_pos(e.pos).unwrap() + k + MAX_CELL <= self.cost_cap(k),
    {
        let c = e.pos;
        let idx = choose|i: int| 0 <= i < s.frontier.len() && s.frontier[i] == e;
        assert(self.entry_ok(s, anchor, k, idx));
        let g = s.cost.at_pos(c).unwrap();
        assert forall|p: Seq<Point>| #[trigger] self.walk_between(p, root, c) implies self.walk_cost(
            p,
            k,
        ) >= g by {
            let i = self.lemma_first_unexplored(s, p, 0, p.len() - 1);
            self.lemma_border(s, walks, root, anchor, k, p, i);
            let v = p[i];
            assert(self.contains(v));
            assert(self.cell_ok(s, walks, root, anchor, k, v));
            let gv = s.cost.at_pos(v).unwrap();
            let j = choose|j: int|
                0 <= j < s.frontier.len() && (#[trigger] s.frontier[j]).pos == v && s.frontier[j].w
                    == gv + self.estimate(anchor, v, k);
            assert(e.w <= s.frontier[j].w);
            self.lemma_estimate_consistent(p, i, anchor, k);
        }
        self.lemma_straight(root, c);
        let sp = self.straight(root, c);
        assert(self.walk_between(sp, root, c));
        self.lemma_walk_cost_bounds(sp, k);
        self.lemma_cost_cap(k);
        assert(self.distance(c, root) * (k + MAX_CELL) + k + MAX_CELL <= self.cost_cap(k));
    }

    /// While a cell is not explored, the queue is not empty.
    pub proof fn lemma_frontier_nonempty(
        &self,
        s: Search,
        walks: Map<Point, Seq<Point>>,
        root: Point,
        anchor: Point,
        k: int,
        c: Point,
    )
        requires
            self.map_ok(),
            self.contains(root),
            0 <= k,
            self.search_inv(s, walks, root, anchor, k, None),
            self.contains(c),
            !s.explored.at_pos(c),
        ensures
            s.frontier.len() > 0,
    {
        self.lemma_straight(root, c);
        let p = self.straight(root, c);
        let i = self.lemma_first_unexplored(s, p, 0, p.len() - 1);
        self.lemma_border(s, walks, root, anchor, k, p, i);
        assert(self.contains(p[i]));
        assert(self.cell_ok(s, walks, root, anchor, k, p[i]));
    }

    /// Dropping an entry whose cell is explored keeps the search sound.
    pub proof fn lemma_after_skip(
        &self,
        s: Search,
        s2: Search,
        walks: Map<Point, Seq<Point>>,
        root: Point,
        anchor: Point,
        k: int,
        e: CellPriority,
    )
        requires
            self.search_inv(s, walks, root, anchor, k, None),
            s2.cost == s.cost,
            s2.came_from == s.came_from,
            s2.explored == s.explored,
            self.contains(e.pos),
            s.explored.at_pos(e.pos),
            forall|x: CellPriority|
                s.frontier@.contains(x) && x != e ==> #[trigger] s2.frontier@.contains(x),
            forall|x: CellPriority| #[trigger] s2.frontier@.contains(x) ==> s.frontier@.contains(x),
        ensures
            self.search_inv(s2, walks, root, anchor, k, None),
    {
        assert forall|c: Point| self.contains(c) implies #[trigger] self.cell_ok(
            s2,
            walks,
            root,
            anchor,
            k,
            c,
        ) by {
            assert(self.cell_ok(s, walks, root, anchor, k, c));
            if c != e.pos {
                self.lemma_live_kept(s, s2, anchor, k, e, c);
            }
        }
        assert forall|c: Point, i: int|
            self.contains(c) && s2.explored.at_pos(c) && 0 <= i < 4 implies #[trigger] self.nb_ok(
            s2,
            k,
            c,
            i,
        ) by {
            assert(self.nb_ok(s, k, c, i));
        }
        assert forall|i: int| 0 <= i < s2.frontier.len() implies #[trigger] self.entry_ok(
            s2,
            anchor,
            k,
            i,
        ) by {
            assert(s2.frontier@.contains(s2.frontier[i]));
            self.lemma_entry_kept(s, s2, anchor, k, i);
        }
    }

    /// An entry that stays in the queue is as good as before while costs do not rise.
    pub proof fn lemma_entry_kept(&self, s: Search, s2: Search, anchor: Point, k: int, i: int)
        requires
            forall|j: int| 0 <= j < s.frontier.len() ==> #[trigger] self.entry_ok(s, anchor, k, j),
            0 <= i < s2.frontier.len(),
            s.frontier@.contains(s2.frontier[i]),
            forall|c: Point|
                self.contains(c) ==> match #[trigger] s.cost.at_pos(c) {
                    Some(g) => s2.cost.at_pos(c).is_some() && s2.cost.at_pos(c).unwrap() <= g,
                    None => true,
                },
        ensures
            self.entry_ok(s2, anchor, k, i),
    {
        let x = s2.frontier[i];
        let j = choose|j: int| 0 <= j < s.frontier.len() && s.frontier[j] == x;
        assert(self.entry_ok(s, anchor, k, j));
    }

    /// A cell other than the one taken from the queue keeps its entry.
    pub proof fn lemma_live_kept(
        &self,
        s: Search,
        s2: Search,
        anchor: Point,
        k: int,
        e: CellPriority,
        c: Point,
    )
        requires
            forall|x: CellPriority|
                s.frontier@.contains(x) && x != e ==> #[trigger] s2.frontier@.contains(x),
            c != e.pos,
        ensures
            forall|f: int| live(s.frontier@, c, f) ==> #[trigger] live(s2.frontier@, c, f),
    {
        assert forall|f: int| live(s.frontier@, c, f) implies #[trigger] live(s2.frontier@, c, f) by {
            let i = choose|i: int|
                0 <= i < s.frontier.len() && (#[trigger] s.frontier[i]).pos == c && s.frontier[i].w
                    == f;
            let x = s.frontier[i];
            assert(s.frontier@.contains(x));
            assert(s2.frontier@.contains(x));
            let j = choose|j: int| 0 <= j < s2.frontier.len() && s2.frontier[j] == x;
            assert(s2.frontier[j].pos == c && s2.frontier[j].w == f);
        }
    }

    /// Taking the least entry from the queue and marking its cell as
    /// explored keeps the search sound; the cell's neighbours are then to be
    /// reached from it.
    pub proof fn lemma_after_pop(
        &self,
        s: Search,
        s2: Search,
        walks: Map<Point, Seq<Point>>,
        root: Point,
        anchor: Point,
        k: int,
        e: CellPriority,
    )
        requires
            self.map_ok(),
            self.contains(anchor),
            self.contains(root),
            0 <= k <= MAX_STEP_COST,
            self.search_inv(s, walks, root, anchor, k, None),
            s.frontier@.contains(e),
            forall|i: int| 0 <= i < s.frontier.len() ==> e.w <= (#[trigger] s.frontier[i]).w,
            self.contains(e.pos),
            !s.explored.at_pos(e.pos),
            s2.cost == s.cost,
            s2.came_from == s.came_from,
            s2.explored.wf(self.w(), self.h()),
            forall|q: Point|
                self.contains(q) ==> #[trigger] s2.explored.at_pos(q) == (q == e.pos
                    || s.explored.at_pos(q)),
            forall|x: CellPriority|
                s.frontier@.contains(x) && x != e ==> #[trigger] s2.frontier@.contains(x),
            forall|x: CellPriority| #[trigger] s2.frontier@.contains(x) ==> s.frontier@.contains(x),
        ensures
            self.search_inv(s2, walks, root, anchor, k, Some((e.pos, 0int))),
            self.explored_cells(s2) == self.explored_cells(s).insert(e.pos),
            !self.explored_cells(s).contains(e.pos),
    {
        self.lemma_least_is_final(s, walks, root, anchor, k, e);
        assert forall|c: Point| self.contains(c) implies #[trigger] self.cell_ok(
            s2,
            walks,
            root,
            anchor,
            k,
            c,
        ) by {
            assert(self.cell_ok(s, walks, root, anchor, k, c));
            if c != e.pos {
                self.lemma_live_kept(s, s2, anchor, k, e, c);
            }
            match s.came_from.at_pos(c) {
                Some(p) => {
                    assert(s2.explored.at_pos(p));
                },
                None => {},
            }
        }
        assert forall|c: Point, i: int|
            self.contains(c) && s2.explored.at_pos(c) && 0 <= i < 4 && !Self::pending(
                Some((e.pos, 0int)),
                c,
                i,
            ) implies #[trigger] self.nb_ok(s2, k, c, i) by {
            assert(c != e.pos);
            assert(self.nb_ok(s, k, c, i));
        }
        assert forall|i: int| 0 <= i < s2.frontier.len() implies #[trigger] self.entry_ok(
            s2,
            anchor,
            k,
            i,
        ) by {
            assert(s2.frontier@.contains(s2.frontier[i]));
            self.lemma_entry_kept(s, s2, anchor, k, i);
        }
        assert(self.explored_cells(s2) =~= self.explored_cells(s).insert(e.pos));
    }

    /// A neighbour that was reached as cheaply before stays as it is.
    pub proof fn lemma_after_keep(
        &self,
        s: Search,
        walks: Map<Point, Seq<Point>>,
        root: Point,
        anchor: Point,
        k: int,
        cur: Point,
        i: int,
    )
        requires
            self.search_inv(s, walks, root, anchor, k, Some((cur, i))),
            0 <= i < 4,
            self.nb_ok(s, k, cur, i),
        ensures
            self.search_inv(s, walks, root, anchor, k, Some((cur, i + 1))),
    {
        assert forall|c: Point, j: int|
            self.contains(c) && s.explored.at_pos(c) && 0 <= j < 4 && !Self::pending(
                Some((cur, i + 1)),
                c,
                j,
            ) implies #[trigger] self.nb_ok(s, k, c, j) by {
            if c == cur && j == i {
            } else {
                assert(!Self::pending(Some((cur, i)), c, j));
            }
        }
    }

    /// A neighbour reached more cheaply than before takes the new cost and
    /// waits in the queue with it.
    #[verifier::spinoff_prover]
    pub proof fn lemma_after_relax(
        &self,
        s: Search,
        s2: Search,
        walks: Map<Point, Seq<Point>>,
        root: Point,
        anchor: Point,
        k: int,
        cur: Point,
        i: int,
        new_cost: int,
    )
        requires
            self.map_ok(),
            self.contains(anchor),
            self.contains(root),
            0 <= k <= MAX_STEP_COST,
            self.search_inv(s, walks, root, anchor, k, Some((cur, i))),
            0 <= i < 4,
            self.contains(cur),
            s.explored.at_pos(cur),
            s.cost.at_pos(cur).is_some(),
            new_cost == s.cost.at_pos(cur).unwrap() + k + self.halite(
                self.stepped(cur, Direction::adjacent()[i]),
            ),
            match s.cost.at_pos(self.stepped(cur, Direction::adjacent()[i])) {
                Some(old) => new_cost < old,
                None => true,
            },
            s2.cost.wf(self.w(), self.h()),
            s2.came_from.wf(self.w(), self.h()),
            s2.explored == s.explored,
            forall|q: Point|
                self.contains(q) ==> #[trigger] s2.cost.at_pos(q) == (if q == self.stepped(
                    cur,
                    Direction::adjacent()[i],
                ) {
                    Some(new_cost as i64)
                } else {
                    s.cost.at_pos(q)
                }),
            forall|q: Point|
                self.contains(q) ==> #[trigger] s2.came_from.at_pos(q) == (if q == self.stepped(
                    cur,
                    Direction::adjacent()[i],
                ) {
                    Some(cur)
                } else {
                    s.came_from.at_pos(q)
                }),
            s2.frontier@ == s.frontier@.push(
                CellPriority {
                    pos: self.stepped(cur, Direction::adjacent()[i]),
                    w: (new_cost + self.estimate(
                        anchor,
                        self.stepped(cur, Direction::adjacent()[i]),
                        k,
                    )) as i64,
                },
            ),
        ensures
            self.search_inv(
                s2,
                walks.insert(
                    self.stepped(cur, Direction::adjacent()[i]),
                    walks[cur].push(self.stepped(cur, Direction::adjacent()[i])),
                ),
                root,
                anchor,
                k,
                Some((cur, i + 1)),
            ),
    {
        let next = self.stepped(cur, Direction::adjacent()[i]);
        let walks2 = walks.insert(next, walks[cur].push(next));
        let w = self.w();
        let h = self.h();
        crate::geometry::lemma_wrap_range(cur.x + Direction::adjacent()[i].offset().0, w);
        crate::geometry::lemma_wrap_range(cur.y + Direction::adjacent()[i].offset().1, h);
        assert(self.contains(next));
        assert(adjacent(w, h, cur, next));
        assert(self.cell_ok(s, walks, root, anchor, k, cur));
        assert(self.cell_ok(s, walks, root, anchor, k, next));
        self.lemma_walk_push(walks[cur], next, k);
        let via = walks[cur].push(next);
        assert(self.walk_between(via, root, next));
        assert(self.walk_cost(via, k) == new_cost);
        self.lemma_cost_cap(k);
        assert(self.halite_map.at(next.x as int, next.y as int) <= MAX_CELL);
        assert(0 <= new_cost <= self.cost_cap(k));
        assert(0 <= self.estimate(anchor, next, k) <= 0x2_0000_0000_0000);
        // the neighbour is neither explored nor the root
        assert(!s.explored.at_pos(next));
        assert(next != cur);
        assert(next != root);
        let fresh = CellPriority { pos: next, w: (new_cost + self.estimate(anchor, next, k)) as i64 };
        assert(s2.frontier@[s.frontier.len() as int] == fresh);
        assert forall|c: Point| self.contains(c) implies #[trigger] self.cell_ok(
            s2,
            walks2,
            root,
            anchor,
            k,
            c,
        ) by {
            assert(self.cell_ok(s, walks, root, anchor, k, c));
            if c == next {
                assert(live(s2.frontier@, next, new_cost + self.estimate(anchor, next, k)));
            } else {
                assert forall|f: int| live(s.frontier@, c, f) implies live(s2.frontier@, c, f) by {
                    let j = choose|j: int|
                        0 <= j < s.frontier.len() && (#[trigger] s.frontier[j]).pos == c
                            && s.frontier[j].w == f;
                    assert(s2.frontier@[j] == s.frontier[j]);
                }
                match s.came_from.at_pos(c) {
                    Some(p) => {
                        assert(p != next);
                    },
                    None => {},
                }
            }
        }
        assert forall|c: Point, j: int|
            self.contains(c) && s2.explored.at_pos(c) && 0 <= j < 4 && !Self::pending(
                Some((cur, i + 1)),
                c,
                j,
            ) implies #[trigger] self.nb_ok(s2, k, c, j) by {
            let n = self.stepped(c, Direction::adjacent()[j]);
            crate::geometry::lemma_wrap_range(c.x + Direction::adjacent()[j].offset().0, w);
            crate::geometry::lemma_wrap_range(c.y + Direction::adjacent()[j].offset().1, h);
            assert(self.contains(n));
            assert(c != next);
            if c == cur && j == i {
            } else {
                assert(!Self::pending(Some((cur, i)), c, j));
                assert(self.nb_ok(s, k, c, j));
            }
        }
        assert forall|j: int| 0 <= j < s2.frontier.len() implies #[trigger] self.entry_ok(
            s2,
            anchor,
            k,
            j,
        ) by {
            if j < s.frontier.len() {
                assert(s2.frontier@[j] == s.frontier[j]);
                assert(self.entry_ok(s, anchor, k, j));
                assert(self.contains(s.frontier[j].pos));
            }
        }
    }

    /// Whether every one of the cells `wanted` is explored.
    fn all_explored(&self, explored: &GMap<bool>, wanted: &Vec<Point>) -> (r: bool)
        requires
            explored.wf(self.w(), self.h()),
            forall|i: int| 0 <= i < wanted.len() ==> self.contains(#[trigger] wanted[i]),
        ensures
            r == forall|i: int| 0 <= i < wanted.len() ==> explored.at_pos(#[trigger] wanted[i]),
    {
        let mut t: usize = 0;
        while t < wanted.len()
            invariant
                explored.wf(self.w(), self.h()),
                forall|i: int| 0 <= i < wanted.len() ==> self.contains(#[trigger] wanted[i]),
                t <= wanted.len(),
                forall|i: int| 0 <= i < t ==> explored.at_pos(#[trigger] wanted[i]),
            decreases wanted.len() - t,
        {
            if !*explored.get(wanted[t]) {
                return false;
            }
            t += 1;
        }
        true
    }

    /// Searches from `root` outwards, the cell of least cost and estimate
    /// first, until every one of the cells `wanted` is explored. A step onto
    /// a cell costs `k` and what the cell holds; the estimate of a cell is `k`
    /// for every step that it lies from `anchor`.
    #[verifier::spinoff_prover]
    pub fn explore(&self, root: Point, anchor: Point, k: i64, wanted: &Vec<Point>) -> (r: (
        Search,
        Ghost<Map<Point, Seq<Point>>>,
    ))
        requires
            self.map_ok(),
            self.contains(root),
            self.contains(anchor),
            0 <= k <= MAX_STEP_COST,
            forall|i: int| 0 <= i < wanted.len() ==> self.contains(#[trigger] wanted[i]),
        ensures
            self.search_inv(r.0, r.1@, root, anchor, k as int, None),
            forall|i: int| 0 <= i < wanted.len() ==> r.0.explored.at_pos(#[trigger] wanted[i]),
    {
        let mut s = Search {
            cost: GMap::filled(self.width, self.height, None),
            came_from: GMap::filled(self.width, self.height, None),
            explored: GMap::filled(self.width, self.height, false),
            frontier: Vec::new(),
        };
        proof {
            self.lemma_cost_cap(k as int);
            assert(0 <= self.estimate(anchor, root, k as int) <= 0x2_0000_0000_0000);
        }
        let first: i64 = k * (self.dist(anchor, root) as i64);
        let ghost blank = s;
        s.cost.set(root, Some(0));
        s.frontier.push(CellPriority { pos: root, w: first });
        let ghost mut walks: Map<Point, Seq<Point>> = Map::empty().insert(root, seq![root]);
        proof {
            assert forall|c: Point| self.contains(c) implies #[trigger] self.cell_ok(
                s,
                walks,
                root,
                anchor,
                k as int,
                c,
            ) by {
                assert(blank.cost.has(c));
                assert(blank.cost.at(c.x as int, c.y as int).is_none());
                assert(s.explored.at(c.x as int, c.y as int) == false);
                assert(s.came_from.at(c.x as int, c.y as int).is_none());
                if c == root {
                    assert(s.frontier@[0].pos == root);
                    assert(live(s.frontier@, root, 0 + self.estimate(anchor, root, k as int)));
                    assert(self.is_walk(seq![root]));
                }
            }
            assert forall|c: Point, i: int|
                self.contains(c) && s.explored.at_pos(c) && 0 <= i < 4 implies #[trigger] self.nb_ok(
                s,
                k as int,
                c,
                i,
            ) by {
                assert(s.explored.at(c.x as int, c.y as int) == false);
            }
            lemma_grid_finite(self.w(), self.h());
        }
        let mut done = self.all_explored(&s.explored, wanted);
        while !done
            invariant
                self.map_ok(),
                self.contains(root),
                self.contains(anchor),
                0 <= k <= MAX_STEP_COST,
                forall|i: int| 0 <= i < wanted.len() ==> self.contains(#[trigger] wanted[i]),
                self.search_inv(s, walks, root, anchor, k as int, None),
                done == forall|i: int|
                    0 <= i < wanted.len() ==> s.explored.at_pos(#[trigger] wanted[i]),
                grid_cells(self.w(), self.h()).finite(),
            decreases
                    grid_cells(self.w(), self.h()).difference(self.explored_cells(s)).len(),
                    s.frontier.len(),
        {
            proof {
                let t = choose|t: int| 0 <= t < wanted.len() && !s.explored.at_pos(#[trigger] wanted[t]);
                self.lemma_frontier_nonempty(s, walks, root, anchor, k as int, wanted[t]);
            }
            let ghost s0 = s;
            let e = pop_least(&mut s.frontier);
            let current = e.pos;
            proof {
                let idx = choose|i: int| 0 <= i < s0.frontier.len() && s0.frontier[i] == e;
                assert(self.entry_ok(s0, anchor, k as int, idx));
            }
            if *s.explored.get(current) {
                proof {
                    self.lemma_after_skip(s0, s, walks, root, anchor, k as int, e);
                    assert(self.explored_cells(s) =~= self.explored_cells(s0));
                }
            } else {
                s.explored.set(current, true);
                proof {
                    self.lemma_after_pop(s0, s, walks, root, anchor, k as int, e);
                    grid_cells(self.w(), self.h()).lemma_set_insert_diff_decreases(
                        self.explored_cells(s0),
                        current,
                    );
                    assert(self.cell_ok(s, walks, root, anchor, k as int, current));
                    self.lemma_cost_cap(k as int);
                }
                let ghost s1 = s;
                let nbs = self.neighbors(current);
                let here: i64 = match *s.cost.get(current) {
                    Some(g) => g,
                    None => 0,
                };
                let mut i: usize = 0;
                while i < 4
                    invariant
                        self.map_ok(),
                        self.contains(root),
                        self.contains(anchor),
                        self.contains(current),
                        0 <= k <= MAX_STEP_COST,
                        i <= 4,
                        nbs@ == Seq::new(4, |j: int| self.stepped(current, Direction::adjacent()[j])),
                        self.search_inv(s, walks, root, anchor, k as int, Some((current, i as int))),
                        s.explored == s1.explored,
                        s.explored.at_pos(current),
                        s.cost.at_pos(current) == Some(here),
                        here + k + MAX_CELL <= self.cost_cap(k as int),
                        0 <= self.cost_cap(k as int) <= 0x2_0000_0000_0000,
                    decreases 4 - i,
                {
                    let next = nbs[i];
                    proof {
                        assert(next == self.stepped(current, Direction::adjacent()[i as int]));
                        crate::geometry::lemma_wrap_range(
                            current.x + Direction::adjacent()[i as int].offset().0,
                            self.w(),
                        );
                        crate::geometry::lemma_wrap_range(
                            current.y + Direction::adjacent()[i as int].offset().1,
                            self.h(),
                        );
                        self.lemma_cost_cap(k as int);
                        assert(0 <= self.estimate(anchor, next, k as int) <= 0x2_0000_0000_0000);
                        assert(self.cell_ok(s, walks, root, anchor, k as int, current));
                    }
                    let new_cost: i64 = here + k + (self.halite_at(next) as i64);
                    let better = match *s.cost.get(next) {
                        Some(old) => new_cost < old,
                        None => true,
                    };
                    if better {
                        let ghost s2 = s;
                        s.cost.set(next, Some(new_cost));
                        let cost_to_goal: i64 = k * (self.dist(anchor, next) as i64);
                        let total_cost: i64 = new_cost + cost_to_goal;
                        s.frontier.push(CellPriority { pos: next, w: total_cost });
                        s.came_from.set(next, Some(current));
                        proof {
                            assert(next != current) by {
                                if next == current {
                                    assert(self.halite(next) >= 0);
                                }
                            }
                            self.lemma_after_relax(
                                s2,
                                s,
                                walks,
                                root,
                                anchor,
                                k as int,
                                current,
                                i as int,
                                new_cost as int,
                            );
                            walks = walks.insert(next, walks[current].push(next));
                        }
                    } else {
                        proof {
                            assert(self.nb_ok(s, k as int, current, i as int));
                            self.lemma_after_keep(s, walks, root, anchor, k as int, current, i as int);
                        }
                    }
                    i += 1;
                }
                proof {
                    assert(self.explored_cells(s) =~= self.explored_cells(s1));
                    assert forall|c: Point, j: int|
                        self.contains(c) && s.explored.at_pos(c) && 0 <= j < 4 implies #[trigger] self.nb_ok(
                        s,
                        k as int,
                        c,
                        j,
                    ) by {
                        assert(!Self::pending(Some((current, 4int)), c, j));
                    }
                }
            }
            done = self.all_explored(&s.explored, wanted);
        }
        (s, Ghost(walks))
    }
}

} // verus!
