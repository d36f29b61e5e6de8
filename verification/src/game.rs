//! The world as one turn's snapshot shows it, and the grid's geometry.

use vstd::prelude::*;
use std::collections::HashMap;
use crate::data::{Direction, Dropoff, Factory, Point, Ship};
use crate::geometry::{
    in_grid, lemma_wrap_cases, lemma_wrap_range, ring, ring_is_exact, ring_len, ring_near,
    ring_offset, ring_skip, square_even, step, torus_dist, valid_dims, wrap, wrap_point,
};
use crate::gmap::GMap;
use crate::vmaps::{base_dist, bases_in_grid, first_nearest};

verus! {

/// The largest amount that one cell may hold.
pub const MAX_CELL: usize = 4294967295;

/// The largest amount that one ship may carry.
pub const MAX_CARGO: usize = 2147483647;

/// Rules of the match that are fixed when it starts.
#[derive(Debug, Clone, Copy, PartialEq, Eq, Structural)]
pub struct Constants {
    pub max_turns: usize,
    pub ship_cost: usize,
    pub dropoff_cost: usize,
    pub max_halite: usize,
}

/// The grid, its resources, and everything on it.
pub struct Game {
    pub turn_number: usize,
    pub max_turns: usize,
    pub constants: Constants,
    pub num_players: usize,
    pub my_pid: usize,
    pub factories: Vec<Factory>,
    pub width: usize,
    pub height: usize,
    pub halite_map: GMap<usize>,
    /// Every ship on the grid, by its id.
    pub ships: HashMap<usize, Ship>,
    pub ship_id_by_player: Vec<Vec<usize>>,
    /// For each cell, the id of a ship that stands on it.
    pub ship_map: GMap<Option<usize>>,
    pub dropoffs: Vec<Dropoff>,
    pub energy: Vec<usize>,
    /// Own deposit sites in the order they were learnt of; the shipyard is first.
    pub my_drop_pts: Vec<Point>,
    pub nearest_drop_pt_idx: GMap<usize>,
    pub nearest_drop_pt_dist: GMap<usize>,
    /// For each cell, the owner of a foreign deposit site on it.
    pub enemy_drop_pts: GMap<Option<usize>>,
}

impl Game {
    /// The width of the grid.
    pub open spec fn w(&self) -> int {
        self.width as int
    }

    /// The height of the grid.
    pub open spec fn h(&self) -> int {
        self.height as int
    }

    /// The sides are within what a grid may have.
    pub open spec fn dims_ok(&self) -> bool {
        valid_dims(self.w(), self.h())
    }

    /// Whether `p` is a cell of this grid.
    pub open spec fn contains(&self, p: Point) -> bool {
        in_grid(self.w(), self.h(), p)
    }

    /// The resource table fits the grid and no cell holds more than `MAX_CELL`.
    pub open spec fn map_ok(&self) -> bool {
        &&& self.dims_ok()
        &&& self.halite_map.wf(self.w(), self.h())
        &&& forall|x: int, y: int|
            0 <= x < self.w() && 0 <= y < self.h() ==> #[trigger] self.halite_map.at(x, y)
                <= MAX_CELL
    }

    /// The ships of one player as the roster lists them.
    pub open spec fn roster(&self, player: int) -> Seq<usize> {
        self.ship_id_by_player[player]@
    }

    /// The record of a ship agrees with its id and lies within the grid and
    /// the limits of the cargo.
    pub open spec fn ship_ok(&self, id: usize, s: Ship) -> bool {
        &&& s.ship_id == id
        &&& s.player < self.num_players
        &&& self.contains(s.pos)
        &&& 0 <= s.halite <= MAX_CARGO
    }

    /// Every ship is on the cell the occupancy table gives it, and the
    /// table names no ship that is not there. No two ships share a cell.
    pub open spec fn ships_ok(&self) -> bool {
        &&& self.ship_map.wf(self.w(), self.h())
        &&& forall|id: usize| #[trigger]
            self.ships@.contains_key(id) ==> self.ship_ok(id, self.ships@[id])
                && self.ship_map.at_pos(self.ships@[id].pos) == Some(id)
        &&& forall|p: Point|
            self.contains(p) ==> match #[trigger] self.ship_map.at_pos(p) {
                Some(id) => self.ships@.contains_key(id) && self.ships@[id].pos == p,
                None => true,
            }
    }

    /// The roster lists each player's ships, each once, and every listed
    /// ship exists and belongs to that player.
    pub open spec fn roster_ok(&self) -> bool {
        &&& self.ship_id_by_player.len() == self.num_players
        &&& forall|pl: int, i: int|
            0 <= pl < self.num_players && 0 <= i < self.roster(pl).len() ==> {
                &&& self.ships@.contains_key(#[trigger] self.roster(pl)[i])
                &&& self.ships@[self.roster(pl)[i]].player == pl
            }
        &&& forall|pl: int| 0 <= pl < self.num_players ==> (#[trigger] self.roster(pl)).no_duplicates()
    }

    /// The two tables of nearest deposit sites are exact for the current
    /// list of sites: each cell is given the first of its nearest sites, and
    /// its wrapped distance to it.
    pub open spec fn drop_maps_ok(&self) -> bool {
        &&& self.my_drop_pts.len() > 0
        &&& bases_in_grid(self.w(), self.h(), self.my_drop_pts@)
        &&& self.nearest_drop_pt_idx.wf(self.w(), self.h())
        &&& self.nearest_drop_pt_dist.wf(self.w(), self.h())
        &&& forall|p: Point|
            self.contains(p) ==> first_nearest(
                self.w(),
                self.h(),
                self.my_drop_pts@,
                p,
                #[trigger] self.nearest_drop_pt_idx.at_pos(p) as int,
            ) && self.nearest_drop_pt_dist.at_pos(p) == base_dist(
                self.w(),
                self.h(),
                self.my_drop_pts@,
                p,
                self.nearest_drop_pt_idx.at_pos(p) as int,
            )
    }

    /// The players' records fit their number.
    pub open spec fn players_ok(&self) -> bool {
        &&& self.my_pid < self.num_players
        &&& self.factories.len() == self.num_players
        &&& self.energy.len() == self.num_players
        &&& forall|i: int|
            0 <= i < self.factories.len() ==> self.contains((#[trigger] self.factories[i]).pos)
        &&& forall|i: int| 0 <= i < self.energy.len() ==> (#[trigger] self.energy[i]) <= MAX_CELL
        &&& self.enemy_drop_pts.wf(self.w(), self.h())
    }

    /// The match's rules are within what the planner's arithmetic can hold,
    /// and the turn counter has not passed the last turn.
    pub open spec fn rules_ok(&self) -> bool {
        &&& self.max_turns == self.constants.max_turns
        &&& self.turn_number <= self.constants.max_turns
        &&& self.constants.max_turns <= MAX_CELL
        &&& self.constants.ship_cost <= MAX_CELL
        &&& self.constants.dropoff_cost <= MAX_CELL
        &&& self.constants.max_halite <= MAX_CELL
    }

    /// A snapshot that the planner can work on: a square grid of even side
    /// whose tables and records agree with one another.
    pub open spec fn wf(&self) -> bool {
        &&& square_even(self.w(), self.h())
        &&& self.map_ok()
        &&& self.rules_ok()
        &&& self.players_ok()
        &&& self.ships_ok()
        &&& self.roster_ok()
        &&& self.drop_maps_ok()
    }

    /// Resources on the cell `p`.
    pub open spec fn halite(&self, p: Point) -> int {
        self.halite_map.at_pos(p) as int
    }

    /// Wrapped distance between two cells of this grid.
    pub open spec fn distance(&self, a: Point, b: Point) -> int {
        torus_dist(self.w(), self.h(), a, b)
    }

    /// The cell one step from `p` in direction `d`.
    pub open spec fn stepped(&self, p: Point, d: Direction) -> Point {
        step(self.w(), self.h(), p, d)
    }

    /// The ring of radius `d` around `c`.
    pub open spec fn ring_at(&self, c: Point, d: int) -> Seq<Point> {
        ring(self.w(), self.h(), c, d)
    }

    /// The rings of the radii `lo..hi` around `c`, one after the other.
    pub open spec fn rings(&self, c: Point, lo: int, hi: int) -> Seq<Point>
        decreases hi - lo,
    {
        if hi <= lo {
            Seq::empty()
        } else {
            self.rings(c, lo, hi - 1) + self.ring_at(c, hi - 1)
        }
    }

    /// Maps any integer pair onto the cell it falls on.
    pub fn normalize(&self, pos: Point) -> (r: Point)
        requires
            self.dims_ok(),
        ensures
            r == wrap_point(self.w(), self.h(), pos.x as int, pos.y as int),
            self.contains(r),
    {
        let width: isize = self.width as isize;
        let height: isize = self.height as isize;
        let x = Self::residue(pos.x, width);
        let y = Self::residue(pos.y, height);
        Point { x, y }
    }

    /// The residue of `v` in `0..n`.
    fn residue(v: isize, n: isize) -> (r: isize)
        requires
            0 < n <= 32768,
        ensures
            r == wrap(v as int, n as int),
            0 <= r < n,
    {
        let r: isize = v % n;
        proof {
            vstd::arithmetic::div_mod::lemma_mod_bound(v as int, n as int);
            if v < 0 {
                let m = ((-v) as int) % (n as int);
                vstd::arithmetic::div_mod::lemma_fundamental_div_mod(-(v as int), n as int);
                vstd::arithmetic::div_mod::lemma_mod_bound(-(v as int), n as int);
                let q = (-(v as int)) / (n as int);
                if m == 0 {
                    assert(v as int == (-q) * (n as int) + 0) by (nonlinear_arith)
                        requires
                            -(v as int) == (n as int) * q + m,
                            m == 0,
                    ;
                    vstd::arithmetic::div_mod::lemma_fundamental_div_mod_converse(
                        v as int,
                        n as int,
                        -q,
                        0,
                    );
                } else {
                    assert(v as int == (-q - 1) * (n as int) + (n - m)) by (nonlinear_arith)
                        requires
                            -(v as int) == (n as int) * q + m,
                    ;
                    vstd::arithmetic::div_mod::lemma_fundamental_div_mod_converse(
                        v as int,
                        n as int,
                        -q - 1,
                        n - m,
                    );
                }
            }
        }
        if r < 0 {
            r + n
        } else {
            r
        }
    }

    /// Offset of the `j`-th cell of a ring of radius `d`.
    fn offset_on_ring(d: isize, lo: isize, j: isize) -> (o: (isize, isize))
        requires
            0 < d <= 16384,
            0 <= lo <= 1,
            0 <= j < 4 * d - 2 * lo,
        ensures
            (o.0 as int, o.1 as int) == ring_offset(d as int, lo as int, j as int),
            -d <= o.0 <= d,
            -d <= o.1 <= d,
    {
        if j < d {
            (j, -d + j)
        } else if j < 2 * d {
            (d - (j - d), j - d)
        } else if j < 3 * d - lo {
            (-(j - 2 * d + lo), d - (j - 2 * d + lo))
        } else {
            (-d + (j - (3 * d - lo) + lo), -(j - (3 * d - lo) + lo))
        }
    }

    /// The ring of radius `dist` around `pos`, for `dist` up to half the width.
    fn near_ring(&self, pos: Point, dist: usize) -> (v: Vec<Point>)
        requires
            self.dims_ok(),
            self.contains(pos),
            dist <= self.width / 2,
        ensures
            v@ == ring_near(self.w(), self.h(), pos, dist as int),
    {
        let mut v: Vec<Point> = Vec::new();
        if dist == 0 {
            v.push(pos);
            assert(v@ =~= ring_near(self.w(), self.h(), pos, 0));
            return v;
        }
        let d: isize = dist as isize;
        let lo: isize = if dist < self.width / 2 { 0 } else { 1 };
        let total: isize = 4 * d - 2 * lo;
        let ghost target = ring_near(self.w(), self.h(), pos, dist as int);
        let mut j: isize = 0;
        while j < total
            invariant
                self.dims_ok(),
                self.contains(pos),
                0 < d <= 16384,
                d == dist,
                lo == ring_skip(self.w(), d as int),
                total == 4 * d - 2 * lo,
                target == ring_near(self.w(), self.h(), pos, dist as int),
                0 <= j <= total,
                v.len() == j,
                forall|k: int| 0 <= k < j ==> v[k] == target[k],
            decreases total - j,
        {
            let o = Self::offset_on_ring(d, lo, j);
            let cell = self.normalize(Point { x: pos.x + o.0, y: pos.y + o.1 });
            v.push(cell);
            j += 1;
        }
        assert(v@ =~= target);
        v
    }

    /// The cells at distance `dist` from `pos`, each once, in the ring's
    /// fixed order: from the north by way of the east. The grid is square
    /// with an even side.
    pub fn tiles_at_dist(&self, pos: Point, dist: usize) -> (v: Vec<Point>)
        requires
            square_even(self.w(), self.h()),
            self.contains(pos),
        ensures
            v@ == self.ring_at(pos, dist as int),
            v@.no_duplicates(),
            v.len() == ring_len(self.w(), dist as int),
            forall|p: Point| #[trigger]
                v@.contains(p) <==> self.contains(p) && self.distance(p, pos) == dist,
    {
        proof {
            ring_is_exact(self.w(), self.h(), pos, dist as int);
            let r = self.ring_at(pos, dist as int);
            assert forall|p: Point| #[trigger]
                r.contains(p) <==> self.contains(p) && self.distance(p, pos) == dist by {
                assert(r.contains(p) <==> in_grid(self.w(), self.h(), p) && torus_dist(
                    self.w(),
                    self.h(),
                    p,
                    pos,
                ) == dist);
            }
        }
        if dist <= self.width / 2 {
            self.near_ring(pos, dist)
        } else if dist <= self.width {
            let far = self.normalize(
                Point {
                    x: pos.x + (self.width as isize) / 2,
                    y: pos.y + (self.height as isize) / 2,
                },
            );
            self.near_ring(far, self.width - dist)
        } else {
            Vec::new()
        }
    }

    /// Beyond the width every ring is empty, so nothing is added there.
    pub proof fn lemma_rings_past_width(&self, c: Point, lo: int, hi: int)
        requires
            self.w() + 1 <= hi,
            lo <= self.w() + 1,
        ensures
            self.rings(c, lo, hi) == self.rings(c, lo, self.w() + 1),
        decreases hi,
    {
        if hi > self.w() + 1 {
            self.lemma_rings_past_width(c, lo, hi - 1);
            assert(self.ring_at(c, hi - 1) =~= Seq::empty());
            assert(self.rings(c, lo, hi) =~= self.rings(c, lo, hi - 1));
        }
    }

    /// The cells that lie `dist1` to `dist2` from `pos`, each once: the
    /// rings of these radii, one after the other. The grid is square with an
    /// even side.
    pub fn tiles_between_dist(&self, pos: Point, dist1: usize, dist2: usize) -> (v: Vec<Point>)
        requires
            square_even(self.w(), self.h()),
            self.contains(pos),
        ensures
            v@ == self.rings(pos, dist1 as int, dist2 as int + 1),
            v@.no_duplicates(),
            forall|p: Point| #[trigger]
                v@.contains(p) <==> self.contains(p) && dist1 <= self.distance(p, pos) <= dist2,
    {
        proof {
            self.lemma_rings_exact(pos, dist1 as int, dist2 as int + 1);
        }
        let mut tiles: Vec<Point> = Vec::new();
        let last: usize = if dist2 <= self.width { dist2 } else { self.width };
        if dist1 > last {
            proof {
                if dist1 <= dist2 {
                    self.lemma_rings_empty_past_width(pos, dist1 as int, dist2 as int + 1);
                }
            }
            assert(tiles@ =~= self.rings(pos, dist1 as int, dist2 as int + 1));
            return tiles;
        }
        let mut d: usize = dist1;
        while d <= last
            invariant
                square_even(self.w(), self.h()),
                self.contains(pos),
                dist1 <= d <= last + 1,
                last <= self.width,
                tiles@ == self.rings(pos, dist1 as int, d as int),
            decreases last + 1 - d,
        {
            let mut ring = self.tiles_at_dist(pos, d);
            tiles.append(&mut ring);
            d += 1;
        }
        proof {
            if last < dist2 {
                self.lemma_rings_past_width(pos, dist1 as int, dist2 as int + 1);
            }
        }
        tiles
    }

    /// Between radii that both lie beyond the width there is no cell.
    pub proof fn lemma_rings_empty_past_width(&self, c: Point, lo: int, hi: int)
        requires
            self.w() < lo,
        ensures
            self.rings(c, lo, hi) == Seq::<Point>::empty(),
        decreases hi - lo,
    {
        if hi > lo {
            self.lemma_rings_empty_past_width(c, lo, hi - 1);
            assert(self.ring_at(c, hi - 1) =~= Seq::empty());
            assert(self.rings(c, lo, hi) =~= Seq::empty());
        }
    }

    /// The rings of the radii `lo..hi` hold the cells that lie `lo` or
    /// more and less than `hi` from their centre, each once.
    pub proof fn lemma_rings_exact(&self, c: Point, lo: int, hi: int)
        requires
            square_even(self.w(), self.h()),
            self.contains(c),
            0 <= lo,
        ensures
            self.rings(c, lo, hi).no_duplicates(),
            forall|p: Point| #[trigger]
                self.rings(c, lo, hi).contains(p) <==> self.contains(p) && lo <= self.distance(p, c)
                    < hi,
        decreases hi - lo,
    {
        if hi > lo {
            self.lemma_rings_exact(c, lo, hi - 1);
            ring_is_exact(self.w(), self.h(), c, hi - 1);
            let head = self.rings(c, lo, hi - 1);
            let tail = self.ring_at(c, hi - 1);
            assert forall|p: Point| #[trigger]
                tail.contains(p) <==> self.contains(p) && self.distance(p, c) == hi - 1 by {
                assert(tail.contains(p) <==> in_grid(self.w(), self.h(), p) && torus_dist(
                    self.w(),
                    self.h(),
                    p,
                    c,
                ) == hi - 1);
            }
            assert forall|i: int, j: int| 0 <= i < head.len() && 0 <= j < tail.len() implies head[i]
                != tail[j] by {
                assert(head.contains(head[i]));
                assert(tail.contains(tail[j]));
            }
            vstd::seq_lib::lemma_no_dup_in_concat(head, tail);
            assert forall|p: Point| #[trigger]
                self.rings(c, lo, hi).contains(p) <==> self.contains(p) && lo <= self.distance(p, c)
                    < hi by {
                vstd::seq_lib::lemma_seq_concat_contains_all_elements(head, tail, p);
                assert(self.rings(c, lo, hi) == head + tail);
                assert(head.contains(p) <==> self.contains(p) && lo <= self.distance(p, c) < hi
                    - 1);
            }
        } else {
            assert(self.rings(c, lo, hi) =~= Seq::<Point>::empty());
        }
    }

    /// The disk of radius `dist` around `pos`: the cells that lie no more
    /// than `dist` from it, each once, ring by ring from the centre outwards.
    /// The grid is square with an even side.
    pub fn tiles_within_dist(&self, pos: Point, dist: usize) -> (v: Vec<Point>)
        requires
            square_even(self.w(), self.h()),
            self.contains(pos),
        ensures
            v@ == self.rings(pos, 0, dist as int + 1),
            v@.no_duplicates(),
            forall|p: Point| #[trigger]
                v@.contains(p) <==> self.contains(p) && self.distance(p, pos) <= dist,
    {
        self.tiles_between_dist(pos, 0, dist)
    }

    /// Number of cells of a diamond of radius `dist` that does not wrap.
    pub fn num_tiles_within_dist(&self, dist: usize) -> (n: usize)
        requires
            dist <= 32768,
        ensures
            n == 2 * dist * (dist + 1) + 1,
    {
        assert(2 * dist * (dist + 1) <= 2 * 32768 * 32769) by (nonlinear_arith)
            requires
                dist <= 32768,
        ;
        2 * dist * (dist + 1) + 1
    }

    /// Wrapped Manhattan distance between two cells.
    pub fn dist(&self, pos1: Point, pos2: Point) -> (d: usize)
        requires
            self.dims_ok(),
            self.contains(pos1),
            self.contains(pos2),
        ensures
            d == self.distance(pos1, pos2),
            d <= self.width / 2 + self.height / 2,
    {
        let dx: usize = if pos1.x >= pos2.x {
            (pos1.x - pos2.x) as usize
        } else {
            (pos2.x - pos1.x) as usize
        };
        let dy: usize = if pos1.y >= pos2.y {
            (pos1.y - pos2.y) as usize
        } else {
            (pos2.y - pos1.y) as usize
        };
        let toroidal_dx: usize = if dx <= self.width - dx { dx } else { self.width - dx };
        let toroidal_dy: usize = if dy <= self.height - dy { dy } else { self.height - dy };
        toroidal_dx + toroidal_dy
    }

    /// The cell one step from `pos` in direction `d`.
    pub fn step_toward(&self, pos: Point, d: Direction) -> (r: Point)
        requires
            self.dims_ok(),
            self.contains(pos),
        ensures
            r == self.stepped(pos, d),
            self.contains(r),
    {
        let (dx, dy): (isize, isize) = match d {
            Direction::North => (0, -1),
            Direction::South => (0, 1),
            Direction::East => (1, 0),
            Direction::West => (-1, 0),
            Direction::Still => (0, 0),
        };
        self.normalize(Point { x: pos.x + dx, y: pos.y + dy })
    }

    /// The four cells next to `pos`: north, east, south, west.
    pub fn neighbors(&self, pos: Point) -> (v: Vec<Point>)
        requires
            self.dims_ok(),
            self.contains(pos),
        ensures
            v@ == Seq::new(4, |i: int| self.stepped(pos, Direction::adjacent()[i])),
    {
        let mut v: Vec<Point> = Vec::new();
        v.push(self.step_toward(pos, Direction::North));
        v.push(self.step_toward(pos, Direction::East));
        v.push(self.step_toward(pos, Direction::South));
        v.push(self.step_toward(pos, Direction::West));
        assert(v@ =~= Seq::new(4, |i: int| self.stepped(pos, Direction::adjacent()[i])));
        v
    }

    /// The five cells a ship on `pos` can end its turn on, in the canonical
    /// order of the moves; the last is `pos` itself.
    pub fn neighborhood(&self, pos: Point) -> (v: Vec<Point>)
        requires
            self.dims_ok(),
            self.contains(pos),
        ensures
            v@ == self.around(pos),
    {
        let mut v: Vec<Point> = Vec::new();
        v.push(self.step_toward(pos, Direction::North));
        v.push(self.step_toward(pos, Direction::East));
        v.push(self.step_toward(pos, Direction::South));
        v.push(self.step_toward(pos, Direction::West));
        v.push(self.step_toward(pos, Direction::Still));
        assert(v@ =~= self.around(pos));
        v
    }

    /// The five cells reachable from `pos` in one turn, in canonical order.
    pub open spec fn around(&self, pos: Point) -> Seq<Point> {
        Seq::new(5, |i: int| self.stepped(pos, Direction::all()[i]))
    }

    /// Standing still leaves a ship where it is.
    pub proof fn lemma_still(&self, pos: Point)
        requires
            self.dims_ok(),
            self.contains(pos),
        ensures
            self.stepped(pos, Direction::Still) == pos,
    {
        lemma_wrap_cases(pos.x as int, self.w());
        lemma_wrap_cases(pos.y as int, self.h());
    }

    /// Resources on the cell `pos`.
    pub fn halite_at(&self, pos: Point) -> (r: usize)
        requires
            self.map_ok(),
            self.contains(pos),
        ensures
            r == self.halite(pos),
            r <= MAX_CELL,
    {
        assert(self.halite_map.at(pos.x as int, pos.y as int) <= MAX_CELL);
        *self.halite_map.get(pos)
    }

    /// The record of the ship with the given id.
    pub fn ship(&self, id: usize) -> (s: Ship)
        requires
            self.ships@.contains_key(id),
        ensures
            s == self.ships@[id],
    {
        broadcast use vstd::std_specs::hash::group_hash_axioms;

        match self.ships.get(&id) {
            Some(s) => *s,
            None => vstd::pervasive::unreached(),
        }
    }

    /// Whether a ship stands on `pos`.
    pub fn is_occupied(&self, pos: Point) -> (r: bool)
        requires
            self.dims_ok(),
            self.ship_map.wf(self.w(), self.h()),
            self.contains(pos),
        ensures
            r == self.ship_map.at_pos(pos).is_some(),
    {
        self.ship_map.get(pos).is_some()
    }

    /// The own deposit site that is nearest to `pos`; among several, the
    /// one listed first.
    pub fn nearest_drop_pos(&self, pos: Point) -> (r: Point)
        requires
            self.dims_ok(),
            self.drop_maps_ok(),
            self.contains(pos),
        ensures
            r == self.my_drop_pts[self.nearest_drop_pt_idx.at_pos(pos) as int],
            self.contains(r),
            self.distance(pos, r) == self.nearest_drop_pt_dist.at_pos(pos),
            forall|k: int|
                0 <= k < self.my_drop_pts.len() ==> self.distance(pos, r) <= self.distance(
                    pos,
                    #[trigger] self.my_drop_pts[k],
                ),
    {
        let idx = *self.nearest_drop_pt_idx.get(pos);
        proof {
            let i = self.nearest_drop_pt_idx.at_pos(pos) as int;
            assert(first_nearest(self.w(), self.h(), self.my_drop_pts@, pos, i));
            assert forall|k: int| 0 <= k < self.my_drop_pts.len() implies self.distance(
                pos,
                self.my_drop_pts[i],
            ) <= self.distance(pos, #[trigger] self.my_drop_pts[k]) by {
                assert(base_dist(self.w(), self.h(), self.my_drop_pts@, pos, i) <= base_dist(
                    self.w(),
                    self.h(),
                    self.my_drop_pts@,
                    pos,
                    k,
                ));
            }
        }
        self.my_drop_pts[idx]
    }

    /// Recomputes the two tables of nearest deposit sites from the list of
    /// own sites.
    pub fn update_dropoff_maps(&mut self)
        requires
            square_even(old(self).w(), old(self).h()),
            old(self).my_drop_pts.len() > 0,
            bases_in_grid(old(self).w(), old(self).h(), old(self).my_drop_pts@),
        ensures
            final(self).drop_maps_ok(),
            final(self).same_but_drop_maps(*old(self)),
    {
        let vmaps = self.make_vmaps(&self.my_drop_pts);
        self.nearest_drop_pt_idx = vmaps.0;
        self.nearest_drop_pt_dist = vmaps.1;
    }

    /// `self` differs from `other` in the tables of nearest sites at most.
    pub open spec fn same_but_drop_maps(&self, other: Game) -> bool {
        &&& self.turn_number == other.turn_number
        &&& self.max_turns == other.max_turns
        &&& self.constants == other.constants
        &&& self.num_players == other.num_players
        &&& self.my_pid == other.my_pid
        &&& self.factories == other.factories
        &&& self.width == other.width
        &&& self.height == other.height
        &&& self.halite_map == other.halite_map
        &&& self.ships == other.ships
        &&& self.ship_id_by_player == other.ship_id_by_player
        &&& self.ship_map == other.ship_map
        &&& self.dropoffs == other.dropoffs
        &&& self.energy == other.energy
        &&& self.my_drop_pts == other.my_drop_pts
        &&& self.enemy_drop_pts == other.enemy_drop_pts
    }

    /// What a step in direction `d` from `start` scores on the way to
    /// `target`: how far the cell it ends on lies from the target, and a
    /// thousand more if that cell is forbidden.
    pub open spec fn step_score(
        &self,
        start: Point,
        target: Point,
        forbidden: GMap<bool>,
        d: Direction,
    ) -> int {
        self.distance(self.stepped(start, d), target) + if forbidden.at_pos(self.stepped(start, d)) {
            1000int
        } else {
            0int
        }
    }

    /// The direction `d` is the first in canonical order with the least score.
    pub open spec fn first_best_step(
        &self,
        start: Point,
        target: Point,
        forbidden: GMap<bool>,
        d: Direction,
    ) -> bool {
        forall|e: Direction|
            self.step_score(start, target, forbidden, d) <= #[trigger] self.step_score(
                start,
                target,
                forbidden,
                e,
            ) && (e.index() < d.index() ==> self.step_score(start, target, forbidden, d)
                < self.step_score(start, target, forbidden, e))
    }

    /// The first of the five moves in canonical order with the least score.
    fn best_step(&self, start: Point, target: Point, forbidden: &GMap<bool>) -> (r: (
        Point,
        Direction,
    ))
        requires
            self.dims_ok(),
            self.contains(start),
            self.contains(target),
            forbidden.wf(self.w(), self.h()),
        ensures
            r.0 == self.stepped(start, r.1),
            self.contains(r.0),
            self.first_best_step(start, target, *forbidden, r.1),
    {
        let mut best_score: usize = 0;
        let mut best_direction = Direction::North;
        let mut best_pos = start;
        let mut m: usize = 0;
        while m < 5
            invariant
                self.dims_ok(),
                self.contains(start),
                self.contains(target),
                forbidden.wf(self.w(), self.h()),
                m <= 5,
                m > 0 ==> best_direction.index() < m && best_pos == self.stepped(
                    start,
                    best_direction,
                ) && self.contains(best_pos) && best_score == self.step_score(
                    start,
                    target,
                    *forbidden,
                    best_direction,
                ),
                forall|e: Direction|
                    e.index() < m ==> best_score <= #[trigger] self.step_score(
                        start,
                        target,
                        *forbidden,
                        e,
                    ) && (e.index() < best_direction.index() ==> best_score < self.step_score(
                        start,
                        target,
                        *forbidden,
                        e,
                    )),
            decreases 5 - m,
        {
            let d = Direction::from_index(m);
            let new_pos = self.step_toward(start, d);
            let mut score = self.dist(new_pos, target);
            if *forbidden.get(new_pos) {
                score = score + 1000;
            }
            if m == 0 || score < best_score {
                best_score = score;
                best_direction = d;
                best_pos = new_pos;
            }
            proof {
                assert forall|e: Direction| e.index() < m + 1 implies best_score <= #[trigger] self.step_score(
                    start,
                    target,
                    *forbidden,
                    e,
                ) && (e.index() < best_direction.index() ==> best_score < self.step_score(
                    start,
                    target,
                    *forbidden,
                    e,
                )) by {
                    if e.index() == m {
                        assert(e == d);
                    }
                }
            }
            m += 1;
        }
        (best_pos, best_direction)
    }

    /// The move that brings a ship on `start` nearest to `target`; of
    /// several, the first in canonical order.
    pub fn navigate_naive(&self, start: Point, target: Point) -> (r: (Point, Direction))
        requires
            self.dims_ok(),
            self.contains(start),
            self.contains(target),
        ensures
            r.0 == self.stepped(start, r.1),
            forall|e: Direction|
                self.distance(r.0, target) <= #[trigger] self.distance(self.stepped(start, e), target)
                    && (e.index() < r.1.index() ==> self.distance(r.0, target) < self.distance(
                    self.stepped(start, e),
                    target,
                )),
    {
        let nothing: GMap<bool> = GMap::filled(self.width, self.height, false);
        let r = self.best_step(start, target, &nothing);
        proof {
            assert forall|e: Direction|
                self.distance(r.0, target) <= #[trigger] self.distance(
                    self.stepped(start, e),
                    target,
                ) && (e.index() < r.1.index() ==> self.distance(r.0, target) < self.distance(
                    self.stepped(start, e),
                    target,
                )) by {
                let q = self.stepped(start, e);
                lemma_wrap_range(start.x + e.offset().0, self.w());
                lemma_wrap_range(start.y + e.offset().1, self.h());
                assert(!nothing.at(q.x as int, q.y as int));
                assert(!nothing.at(r.0.x as int, r.0.y as int));
                assert(self.step_score(start, target, nothing, e) == self.distance(q, target));
                assert(self.step_score(start, target, nothing, r.1) == self.distance(r.0, target));
            }
        }
        r
    }

    /// The move that brings a ship on `start` nearest to `target` where a
    /// forbidden cell counts as a thousand steps farther; of several, the
    /// first in canonical order. The cell the move ends on is forbidden from
    /// then on.
    pub fn navigate_no_collide(&self, start: Point, target: Point, forbidden: &mut GMap<bool>) -> (r: (
        Point,
        Direction,
    ))
        requires
            self.dims_ok(),
            self.contains(start),
            self.contains(target),
            old(forbidden).wf(self.w(), self.h()),
        ensures
            r.0 == self.stepped(start, r.1),
            self.first_best_step(start, target, *old(forbidden), r.1),
            final(forbidden).wf(self.w(), self.h()),
            forall|q: Point|
                self.contains(q) ==> #[trigger] final(forbidden).at_pos(q) == (q == r.0 || old(
                    forbidden,
                ).at_pos(q)),
    {
        let r = self.best_step(start, target, forbidden);
        forbidden.set(r.0, true);
        r
    }
}

} // verus!
