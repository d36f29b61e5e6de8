//! Choosing the cells worth sailing to, and what a trip to one is worth.

use vstd::prelude::*;
use crate::corridor::{in_full, obeys, part_of};
use crate::data::{Point, Ship};
use crate::game::{Game, MAX_CELL};
use crate::geometry::in_grid;
use crate::gmap::GMap;

verus! {

/// How a ship currently spends its turns.
#[derive(Debug, Copy, Clone, PartialEq, Eq, Structural)]
pub enum GoalType {
    /// On its way to a cell to mine.
    TowardsMine,
    /// Mining the cell it is on.
    Mine,
    /// On its way home to deposit its cargo.
    Deposit,
}

/// A cell chosen as a target for this turn.
#[derive(Debug, Copy, Clone, PartialEq, Eq, Structural)]
pub struct Goal {
    pub pos: Point,
}

/// Whether `p` occurs in `v`.
pub fn has_point(v: &Vec<Point>, p: Point) -> (r: bool)
    ensures
        r == v@.contains(p),
{
    let mut i: usize = 0;
    while i < v.len()
        invariant
            i <= v.len(),
            forall|j: int| 0 <= j < i ==> v[j] != p,
        decreases v.len() - i,
    {
        if v[i].x == p.x && v[i].y == p.y {
            assert(v@[i as int] == p);
            return true;
        }
        i += 1;
    }
    false
}

/// The cells of the first `n` goals.
pub open spec fn goal_cells(out: Seq<Goal>, n: int) -> Set<Point> {
    Set::new(|p: Point| exists|j: int| 0 <= j < n && (#[trigger] out[j]).pos == p)
}

impl Game {
    /// A cell that holds one of the own deposit sites.
    pub open spec fn is_home(&self, p: Point) -> bool {
        self.my_drop_pts@.contains(p)
    }

    /// Place of a cell in the order in which the grid is read: column by
    /// column, each from the top.
    pub open spec fn scan_index(&self, p: Point) -> int {
        p.x * self.h() + p.y
    }

    /// The cell `a` yields more than `b`: what it holds, divided by one
    /// more than its distance from home, is greater, or is as great and `a`
    /// is read first. The quotients are compared exactly.
    pub open spec fn outranks(&self, dist_map: GMap<usize>, a: Point, b: Point) -> bool {
        let ha = self.halite(a);
        let hb = self.halite(b);
        let da = 1 + dist_map.at_pos(a);
        let db = 1 + dist_map.at_pos(b);
        ha * db > hb * da || (ha * db == hb * da && self.scan_index(a) < self.scan_index(b))
    }

    /// A cell that can still be picked: on the grid, not a deposit site,
    /// and not among the first `n` goals.
    pub open spec fn open_cell(&self, out: Seq<Goal>, n: int, p: Point) -> bool {
        self.contains(p) && !self.is_home(p) && !goal_cells(out, n).contains(p)
    }

    /// The `i`-th goal is the cell that yields most among those still open.
    pub open spec fn best_open(&self, dist_map: GMap<usize>, out: Seq<Goal>, i: int) -> bool {
        &&& self.open_cell(out, i, out[i].pos)
        &&& forall|q: Point| #[trigger]
            self.open_cell(out, i, q) ==> q == out[i].pos || self.outranks(dist_map, out[i].pos, q)
    }

    /// The goals of a turn: first the cells the miners are on, then the
    /// cells that yield most, best first, none twice, until `k` goals are
    /// listed; `picks` is where these end. If the grid has too few cells for
    /// that, the deposit site learnt of last fills the list up.
    pub open spec fn goals_picked(
        &self,
        miners: Seq<Point>,
        k: int,
        dist_map: GMap<usize>,
        out: Seq<Goal>,
        picks: int,
    ) -> bool {
        &&& out.len() == (if k > miners.len() { k } else { miners.len() as int })
        &&& miners.len() <= picks <= out.len()
        &&& forall|i: int| 0 <= i < miners.len() ==> (#[trigger] out[i]).pos == miners[i]
        &&& forall|i: int| miners.len() <= i < picks ==> #[trigger] self.best_open(dist_map, out, i)
        &&& forall|i: int| picks <= i < out.len() ==> (#[trigger] out[i]).pos == self.my_drop_pts@.last()
        &&& picks < out.len() ==> forall|q: Point| !#[trigger] self.open_cell(out, picks, q)
    }

    /// The cell that yields most among those not marked as taken and not a
    /// deposit site, if there is one.
    #[verifier::spinoff_prover]
    fn best_free_cell(&self, dist_map: &GMap<usize>, taken: &GMap<bool>) -> (r: Option<Point>)
        requires
            self.map_ok(),
            dist_map.wf(self.w(), self.h()),
            taken.wf(self.w(), self.h()),
        ensures
            match r {
                Some(c) => {
                    &&& self.contains(c)
                    &&& !self.is_home(c)
                    &&& !taken.at_pos(c)
                    &&& forall|q: Point|
                        self.contains(q) && !self.is_home(q) && !#[trigger] taken.at_pos(q) ==> q
                            == c || self.outranks(*dist_map, c, q)
                },
                None => forall|q: Point|
                    self.contains(q) && !self.is_home(q) ==> #[trigger] taken.at_pos(q),
            },
    {
        let mut best: Option<Point> = None;
        let mut best_h: u128 = 0;
        let mut best_d: u128 = 1;
        let mut x: usize = 0;
        while x < self.width
            invariant
                self.map_ok(),
                dist_map.wf(self.w(), self.h()),
                taken.wf(self.w(), self.h()),
                x <= self.width,
                best_h <= MAX_CELL,
                1 <= best_d <= 0x1_0000_0000_0000_0000,
                match best {
                    Some(c) => {
                        &&& self.contains(c)
                        &&& !self.is_home(c)
                        &&& !taken.at_pos(c)
                        &&& c.x < x
                        &&& best_h == self.halite(c)
                        &&& best_d == 1 + dist_map.at_pos(c)
                    },
                    None => true,
                },
                forall|q: Point|
                    self.contains(q) && !self.is_home(q) && !#[trigger] taken.at_pos(q) && q.x < x
                        ==> match best {
                        Some(c) => q == c || self.outranks(*dist_map, c, q),
                        None => false,
                    },
            decreases self.width - x,
        {
            let mut y: usize = 0;
            while y < self.height
                invariant
                    self.map_ok(),
                    dist_map.wf(self.w(), self.h()),
                    taken.wf(self.w(), self.h()),
                    x < self.width,
                    y <= self.height,
                    best_h <= MAX_CELL,
                    1 <= best_d <= 0x1_0000_0000_0000_0000,
                    match best {
                        Some(c) => {
                            &&& self.contains(c)
                            &&& !self.is_home(c)
                            &&& !taken.at_pos(c)
                            &&& (c.x < x || (c.x == x && c.y < y))
                            &&& best_h == self.halite(c)
                            &&& best_d == 1 + dist_map.at_pos(c)
                        },
                        None => true,
                    },
                    forall|q: Point|
                        self.contains(q) && !self.is_home(q) && !#[trigger] taken.at_pos(q) && (q.x
                            < x || (q.x == x && q.y < y)) ==> match best {
                            Some(c) => q == c || self.outranks(*dist_map, c, q),
                            None => false,
                        },
                decreases self.height - y,
            {
                let cell_pos = Point { x: x as isize, y: y as isize };
                if !*taken.get(cell_pos) && !has_point(&self.my_drop_pts, cell_pos) {
                    let hc: u128 = self.halite_at(cell_pos) as u128;
                    let dc: u128 = (*dist_map.get(cell_pos)) as u128 + 1;
                    assert(hc * best_d <= 0xffff_ffff * 0x1_0000_0000_0000_0000) by (nonlinear_arith)
                        requires
                            hc <= 0xffff_ffff,
                            best_d <= 0x1_0000_0000_0000_0000,
                    ;
                    assert(best_h * dc <= 0xffff_ffff * 0x1_0000_0000_0000_0000) by (nonlinear_arith)
                        requires
                            best_h <= 0xffff_ffff,
                            dc <= 0x1_0000_0000_0000_0000,
                    ;
                    let better = match best {
                        Some(_) => hc * best_d > best_h * dc,
                        None => true,
                    };
                    if better {
                        proof {
                            match best {
                                Some(c) => {
                                    assert forall|q: Point|
                                        self.contains(q) && !self.is_home(q) && !#[trigger] taken.at_pos(
                                            q,
                                        ) && (q.x < x || (q.x == x && q.y < y + 1)) implies q
                                        == cell_pos || self.outranks(*dist_map, cell_pos, q) by {
                                        if q != cell_pos {
                                            assert(q == c || self.outranks(*dist_map, c, q));
                                            self.lemma_outranks_chain(*dist_map, cell_pos, c, q);
                                        }
                                    }
                                },
                                None => {},
                            }
                        }
                        best = Some(cell_pos);
                        best_h = hc;
                        best_d = dc;
                    } else {
                        proof {
                            let c = best.unwrap();
                            assert(self.scan_index(c) < self.scan_index(cell_pos)) by (nonlinear_arith)
                                requires
                                    c.x < x || (c.x == x && c.y < y),
                                    0 <= c.y < self.h(),
                                    0 <= y < self.h(),
                                    0 <= c.x,
                                    cell_pos.x == x,
                                    cell_pos.y == y,
                                    self.scan_index(c) == c.x * self.h() + c.y,
                                    self.scan_index(cell_pos) == cell_pos.x * self.h() + cell_pos.y,
                            ;
                            assert(self.outranks(*dist_map, c, cell_pos));
                        }
                    }
                }
                y += 1;
            }
            x += 1;
        }
        best
    }

    /// A cell that yields strictly more than one that outranks a third
    /// outranks the third.
    proof fn lemma_outranks_chain(&self, dist_map: GMap<usize>, a: Point, b: Point, c: Point)
        requires
            self.halite(a) * (1 + dist_map.at_pos(b)) > self.halite(b) * (1 + dist_map.at_pos(a)),
            b == c || self.outranks(dist_map, b, c),
            self.halite(a) >= 0,
            self.halite(b) >= 0,
            self.halite(c) >= 0,
        ensures
            self.outranks(dist_map, a, c),
    {
        let ha = self.halite(a);
        let hb = self.halite(b);
        let hc = self.halite(c);
        let da = 1 + dist_map.at_pos(a);
        let db = 1 + dist_map.at_pos(b);
        let dc = 1 + dist_map.at_pos(c);
        if b != c {
            assert(hb * dc >= hc * db);
            assert(ha * dc > hc * da) by (nonlinear_arith)
                requires
                    ha * db > hb * da,
                    hb * dc >= hc * db,
                    da >= 1,
                    db >= 1,
                    dc >= 1,
                    ha >= 0,
                    hb >= 0,
                    hc >= 0,
            ;
        }
    }
}

/// The cells that the ships with the given ids are on.
pub open spec fn positions_of(game: Game, ids: Seq<usize>) -> Seq<Point> {
    Seq::new(ids.len(), |i: int| game.ships@[ids[i]].pos)
}

/// Lists the goals of a turn: the cells that the miners are on, then the
/// cells that yield most for their distance from home, until there are
/// `min_num_goals`. Where the grid has too few cells that are not deposit
/// sites, the site learnt of last is repeated.
#[verifier::spinoff_prover]
pub fn pick_goals(game: &Game, my_miners: &Vec<usize>, min_num_goals: usize, dist_map: &GMap<usize>) -> (out:
    Vec<Goal>)
    requires
        game.map_ok(),
        game.ships_ok(),
        game.my_drop_pts.len() > 0,
        dist_map.wf(game.w(), game.h()),
        forall|i: int| 0 <= i < my_miners.len() ==> game.ships@.contains_key(#[trigger] my_miners[i]),
    ensures
        exists|picks: int| #[trigger]
            game.goals_picked(
                positions_of(*game, my_miners@),
                min_num_goals as int,
                *dist_map,
                out@,
                picks,
            ),
{
    let ghost miners = positions_of(*game, my_miners@);
    let mut out: Vec<Goal> = Vec::new();
    let mut taken: GMap<bool> = GMap::filled(game.width, game.height, false);
    proof {
        assert forall|p: Point| game.contains(p) implies !#[trigger] taken.at_pos(p) by {
            assert(!taken.at(p.x as int, p.y as int));
        }
    }
    let mut i: usize = 0;
    while i < my_miners.len()
        invariant
            game.map_ok(),
            game.ships_ok(),
            taken.wf(game.w(), game.h()),
            forall|j: int|
                0 <= j < my_miners.len() ==> game.ships@.contains_key(#[trigger] my_miners[j]),
            miners == positions_of(*game, my_miners@),
            i <= my_miners.len(),
            out.len() == i,
            forall|j: int| 0 <= j < i ==> (#[trigger] out[j]).pos == miners[j],
            forall|p: Point|
                game.contains(p) ==> (#[trigger] taken.at_pos(p) <==> goal_cells(
                    out@,
                    out.len() as int,
                ).contains(p)),
        decreases my_miners.len() - i,
    {
        let s = game.ship(my_miners[i]);
        let ghost before = out@;
        assert(game.ship_ok(my_miners[i as int], game.ships@[my_miners[i as int]]));
        out.push(Goal { pos: s.pos });
        taken.set(s.pos, true);
        proof {
            lemma_goal_cells_push(before, Goal { pos: s.pos });
        }
        i += 1;
    }
    let mut exhausted = false;
    while out.len() < min_num_goals && !exhausted
        invariant
            game.map_ok(),
            dist_map.wf(game.w(), game.h()),
            taken.wf(game.w(), game.h()),
            miners.len() == my_miners.len(),
            miners.len() <= out.len(),
            forall|j: int| 0 <= j < miners.len() ==> (#[trigger] out[j]).pos == miners[j],
            forall|j: int|
                miners.len() <= j < out.len() ==> #[trigger] game.best_open(*dist_map, out@, j),
            forall|p: Point|
                game.contains(p) ==> (#[trigger] taken.at_pos(p) <==> goal_cells(
                    out@,
                    out.len() as int,
                ).contains(p)),
            exhausted ==> forall|q: Point|
                game.contains(q) && !game.is_home(q) ==> #[trigger] taken.at_pos(q),
            out.len() <= min_num_goals || out.len() == miners.len(),
        decreases min_num_goals - out.len(), if exhausted { 0int } else { 1int },
    {
        match game.best_free_cell(dist_map, &taken) {
            None => {
                exhausted = true;
            },
            Some(c) => {
                let ghost before = out@;
                let ghost taken0 = taken;
                out.push(Goal { pos: c });
                taken.set(c, true);
                proof {
                    let n = before.len() as int;
                    lemma_goal_cells_push(before, Goal { pos: c });
                    assert forall|p: Point| game.contains(p) implies (#[trigger] taken.at_pos(p)
                        <==> goal_cells(out@, out.len() as int).contains(p)) by {
                        assert(taken0.has(p));
                        assert(taken0.at_pos(p) <==> goal_cells(before, n).contains(p));
                    }
                    assert forall|j: int| miners.len() <= j < out.len() implies #[trigger] game.best_open(
                        *dist_map,
                        out@,
                        j,
                    ) by {
                        lemma_goal_cells_prefix(before, out@, if j < n { j } else { n });
                        if j < n {
                            assert(game.best_open(*dist_map, before, j));
                            assert(out@[j] == before[j]);
                            assert forall|q: Point| #[trigger]
                                game.open_cell(out@, j, q) implies q == out@[j].pos
                                || game.outranks(*dist_map, out@[j].pos, q) by {
                                assert(game.open_cell(before, j, q));
                            }
                        } else {
                            assert(out@[j].pos == c);
                            assert(!taken0.at_pos(c));
                            assert(game.open_cell(out@, j, c));
                            assert forall|q: Point| #[trigger]
                                game.open_cell(out@, j, q) implies q == c || game.outranks(
                                *dist_map,
                                c,
                                q,
                            ) by {
                                assert(taken0.at_pos(q) <==> goal_cells(before, n).contains(q));
                                assert(!taken0.at_pos(q));
                            }
                        }
                    }
                }
            },
        }
    }
    let picks = out.len();
    let ghost picked = out@;
    proof {
        if picks < min_num_goals {
            assert forall|q: Point| !#[trigger] game.open_cell(out@, picks as int, q) by {
                if game.contains(q) && !game.is_home(q) {
                    assert(taken.at_pos(q));
                }
            }
        }
    }
    let last = game.my_drop_pts[game.my_drop_pts.len() - 1];
    assert(out@.subrange(0, picks as int) =~= picked);
    while out.len() < min_num_goals
        invariant
            picks <= out.len(),
            picks == picked.len(),
            game.my_drop_pts.len() > 0,
            out@.subrange(0, picks as int) == picked,
            out.len() <= min_num_goals || out.len() == picks,
            out.len() > picks ==> picks < min_num_goals,
            miners.len() <= picks,
            picks <= min_num_goals || picks == miners.len(),
            forall|j: int| 0 <= j < miners.len() ==> (#[trigger] picked[j]).pos == miners[j],
            forall|j: int|
                miners.len() <= j < picks ==> #[trigger] game.best_open(*dist_map, picked, j),
            picks < min_num_goals ==> forall|q: Point|
                !#[trigger] game.open_cell(picked, picks as int, q),
            last == game.my_drop_pts@.last(),
            forall|j: int| picks <= j < out.len() ==> (#[trigger] out[j]).pos == last,
        decreases min_num_goals - out.len(),
    {
        let ghost before = out@;
        out.push(Goal { pos: last });
        assert(out@.subrange(0, picks as int) =~= before.subrange(0, picks as int));
    }
    proof {
        assert forall|j: int| 0 <= j < picks implies out@[j] == picked[j] by {
            assert(out@.subrange(0, picks as int)[j] == out@[j]);
        }
        assert forall|j: int| miners.len() <= j < picks implies #[trigger] game.best_open(
            *dist_map,
            out@,
            j,
        ) by {
            assert(game.best_open(*dist_map, picked, j));
            lemma_goal_cells_prefix(picked, out@, j);
            assert(out@[j] == picked[j]);
            assert forall|q: Point| #[trigger] game.open_cell(out@, j, q) implies q == out@[j].pos
                || game.outranks(*dist_map, out@[j].pos, q) by {
                assert(game.open_cell(picked, j, q));
            }
        }
        if picks < out.len() {
            assert(picks < min_num_goals);
            assert forall|q: Point| !#[trigger] game.open_cell(out@, picks as int, q) by {
                lemma_goal_cells_prefix(picked, out@, picks as int);
                assert(!game.open_cell(picked, picks as int, q));
            }
        }
        assert(out@.len() == (if min_num_goals as int > miners.len() {
            min_num_goals as int
        } else {
            miners.len() as int
        }));
        assert(miners.len() <= picks <= out@.len());
        assert forall|i: int| 0 <= i < miners.len() implies (#[trigger] out@[i]).pos
            == miners[i] by {
            assert(out@.subrange(0, picks as int)[i] == out@[i]);
            assert(picked[i].pos == miners[i]);
        }
        assert(forall|i: int|
            picks <= i < out@.len() ==> (#[trigger] out@[i]).pos == game.my_drop_pts@.last());
        assert(game.goals_picked(miners, min_num_goals as int, *dist_map, out@, picks as int));
    }
    out
}

/// The cells of a list of goals with one more goal.
pub proof fn lemma_goal_cells_push(out: Seq<Goal>, g: Goal)
    ensures
        goal_cells(out.push(g), out.len() as int + 1) == goal_cells(out, out.len() as int).insert(g.pos),
{
    let a = goal_cells(out.push(g), out.len() as int + 1);
    let b = goal_cells(out, out.len() as int).insert(g.pos);
    assert forall|p: Point| a.contains(p) implies b.contains(p) by {
        let j = choose|j: int| 0 <= j < out.len() + 1 && (#[trigger] out.push(g)[j]).pos == p;
        if j < out.len() {
            assert(out[j].pos == p);
        }
    }
    assert forall|p: Point| b.contains(p) implies a.contains(p) by {
        if p == g.pos {
            assert(out.push(g)[out.len() as int].pos == p);
        } else {
            let j = choose|j: int| 0 <= j < out.len() && (#[trigger] out[j]).pos == p;
            assert(out.push(g)[j].pos == p);
        }
    }
    assert(a =~= b);
}

/// The cells of the first goals of a list depend on these goals alone.
pub proof fn lemma_goal_cells_prefix(a: Seq<Goal>, b: Seq<Goal>, n: int)
    requires
        0 <= n <= a.len(),
        n <= b.len(),
        forall|j: int| 0 <= j < n ==> a[j] == b[j],
    ensures
        goal_cells(a, n) == goal_cells(b, n),
{
    assert forall|p: Point| goal_cells(a, n).contains(p) implies goal_cells(b, n).contains(p) by {
        let j = choose|j: int| 0 <= j < n && (#[trigger] a[j]).pos == p;
        assert(b[j].pos == p);
    }
    assert forall|p: Point| goal_cells(b, n).contains(p) implies goal_cells(a, n).contains(p) by {
        let j = choose|j: int| 0 <= j < n && (#[trigger] b[j]).pos == p;
        assert(a[j].pos == p);
    }
    assert(goal_cells(a, n) =~= goal_cells(b, n));
}

/// The two numbers that the worth of sending a miner to a goal is made of.
///
/// The worth itself is the net yield divided by the duration raised to the
/// power of 1.4. It is not computed here.
#[derive(Debug, Copy, Clone, PartialEq, Eq, Structural)]
pub struct GoalTerms {
    /// A hundred times the net yield of the trip.
    pub net_halite_x100: i64,
    /// Ten times the estimated duration of the trip in turns.
    pub net_turns_x10: i64,
}

impl Game {
    /// A hundred times what it costs a miner to leave the cell it is
    /// mining: nothing if it is to stay or is not mining; for a rich cell ten
    /// thousand times the cost of moving off it; else 0.23 times what the
    /// cell holds.
    pub open spec fn stop_cost_x100(&self, miner: Ship, goal_pos: Point, goal_type: GoalType) -> int {
        if goal_pos != miner.pos && goal_type == GoalType::Mine {
            if self.halite(miner.pos) > self.constants.max_halite / 10 {
                1_000_000 * (self.halite(miner.pos) / 10)
            } else {
                23 * self.halite(miner.pos)
            }
        } else {
            0
        }
    }

    /// A hundred times the net yield of sending `miner` to `goal_pos` and
    /// on to `drop_pos`: 0.8 times what the goal holds, less the cost of
    /// leaving, less a tenth of what lies on the way out, less a fifth of the
    /// tenths of what lies on the way home.
    pub open spec fn net_halite_x100(
        &self,
        miner: Ship,
        goal_pos: Point,
        goal_type: GoalType,
        drop_pos: Point,
    ) -> int {
        80 * self.halite(goal_pos) - self.stop_cost_x100(miner, goal_pos, goal_type) - 10
            * self.corridor_sum(miner.pos, goal_pos, in_full()) - 20 * self.corridor_sum(
            goal_pos,
            drop_pos,
            part_of(10),
        )
    }

    /// Ten times the estimated duration of the trip: 1.2 turns for every
    /// step out, 0.9 for every step home, and one turn.
    pub open spec fn net_turns_x10(&self, miner: Ship, goal_pos: Point, drop_pos: Point) -> int {
        12 * self.distance(miner.pos, goal_pos) + 9 * self.distance(goal_pos, drop_pos) + 10
    }
}

/// The terms of the worth of sending `miner` to the goal `goal_pos`, from
/// where it would go home to `drop_pos`.
pub fn miner_goal_terms(
    game: &Game,
    miner: &Ship,
    goal_pos: Point,
    goal_type: GoalType,
    drop_pos: Point,
) -> (t: GoalTerms)
    requires
        game.map_ok(),
        game.constants.max_halite <= MAX_CELL,
        game.contains(miner.pos),
        game.contains(goal_pos),
        game.contains(drop_pos),
    ensures
        t.net_halite_x100 == game.net_halite_x100(*miner, goal_pos, goal_type, drop_pos),
        t.net_turns_x10 == game.net_turns_x10(*miner, goal_pos, drop_pos),
        10 <= t.net_turns_x10 <= 700_000,
        -0x40_0000_0000_0000 <= t.net_halite_x100 <= 0x40_0000_0000_0000,
{
    let goal_halite: i64 = game.halite_at(goal_pos) as i64;
    let here: i64 = game.halite_at(miner.pos) as i64;
    let movement_cost: i64 = here / 10;
    let leaving = !(goal_pos.x == miner.pos.x && goal_pos.y == miner.pos.y);
    let mining = match goal_type {
        GoalType::Mine => true,
        _ => false,
    };
    let stop_x100: i64 = if leaving && mining {
        if here > (game.constants.max_halite / 10) as i64 {
            1_000_000 * movement_cost
        } else {
            23 * here
        }
    } else {
        0
    };
    let whole = |v: usize| -> (r: usize)
        ensures
            r == v,
        { v };
    let tenth = |v: usize| -> (r: usize)
        ensures
            r == v / 10,
        { v / 10 };
    let out: i64 = game.halite_between2(miner.pos, goal_pos, &whole) as i64;
    let home: i64 = game.halite_between2(goal_pos, drop_pos, &tenth) as i64;
    proof {
        assert(obeys(whole, in_full()));
        assert(obeys(tenth, part_of(10)));
    }
    let d_out: i64 = game.dist(miner.pos, goal_pos) as i64;
    let d_home: i64 = game.dist(goal_pos, drop_pos) as i64;
    GoalTerms {
        net_halite_x100: 80 * goal_halite - stop_x100 - 10 * out - 20 * home,
        net_turns_x10: 12 * d_out + 9 * d_home + 10,
    }
}

} // verus!
