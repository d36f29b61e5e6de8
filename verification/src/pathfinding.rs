//! What each of a ship's five moves costs on the way to its target.

use vstd::prelude::*;
use crate::conflict::BLOCKED;
use crate::data::{Direction, Point};
use crate::game::{Game, MAX_CELL};
use crate::gmap::GMap;
use crate::search::Search;
use crate::walks::MAX_STEP_COST;

verus! {

/// The cost per step that the planner searches with.
pub const STEP_COST: i64 = 100000;

/// Score of a move for a ship that sails alone: the cost of the way from
/// the move's cell, with a penalty if the cell is forbidden, and less four
/// times what the cell holds if the ship is on its target already.
pub open spec fn lone_score(cost: int, blocked: bool, staying: bool, halite: int) -> int {
    cost + (if blocked { BLOCKED as int } else { 0 }) - (if staying { 4 * halite } else { 0 })
}

impl Game {
    /// What the search has found for an explored cell is the cost of a
    /// cheapest way to it.
    pub proof fn lemma_explored_cheapest(
        &self,
        s: Search,
        walks: Map<Point, Seq<Point>>,
        root: Point,
        anchor: Point,
        k: int,
        c: Point,
    )
        requires
            self.search_inv(s, walks, root, anchor, k, None),
            self.contains(c),
            s.explored.at_pos(c),
        ensures
            s.cost.at_pos(c).is_some(),
            self.cheapest(root, c, k, s.cost.at_pos(c).unwrap() as int),
            0 <= s.cost.at_pos(c).unwrap() <= self.cost_cap(k),
            self.walk_between(walks[c], root, c),
            self.walk_cost(walks[c], k) == s.cost.at_pos(c).unwrap(),
    {
        assert(self.cell_ok(s, walks, root, anchor, k, c));
        assert(self.walk_between(walks[c], root, c));
    }

    /// For each of the five cells that a ship on `start` can end its turn
    /// on, in the canonical order of the moves: the cell, the move, and the
    /// cost of a cheapest way from `target` to the cell, where a step onto a
    /// cell costs `k` and what the cell holds.
    ///
    /// One search from the target serves all five cells. It prefers cells
    /// near `start` and ends when the five are settled.
    #[verifier::spinoff_prover]
    pub fn backwards_a_star_scores(&self, start: Point, target: Point, k: i64) -> (scores: Vec<
        (Point, Direction, i64),
    >)
        requires
            self.map_ok(),
            self.contains(start),
            self.contains(target),
            0 <= k <= MAX_STEP_COST,
        ensures
            scores.len() == 5,
            forall|m: int|
                0 <= m < 5 ==> {
                    &&& (#[trigger] scores[m]).0 == self.around(start)[m]
                    &&& scores[m].1 == Direction::all()[m]
                    &&& self.cheapest(target, scores[m].0, k as int, scores[m].2 as int)
                    &&& 0 <= scores[m].2 <= self.cost_cap(k as int)
                    &&& self.contains(scores[m].0)
                },
    {
        let start_neighborhood = self.neighborhood(start);
        proof {
            assert forall|i: int| 0 <= i < start_neighborhood.len() implies self.contains(
                #[trigger] start_neighborhood[i],
            ) by {
                crate::geometry::lemma_wrap_range(
                    start.x + Direction::all()[i].offset().0,
                    self.w(),
                );
                crate::geometry::lemma_wrap_range(
                    start.y + Direction::all()[i].offset().1,
                    self.h(),
                );
            }
        }
        let (found, Ghost(walks)) = self.explore(target, start, k, &start_neighborhood);
        let mut scores: Vec<(Point, Direction, i64)> = Vec::new();
        let mut m: usize = 0;
        while m < 5
            invariant
                m <= 5,
                scores.len() == m,
                start_neighborhood@ == self.around(start),
                self.search_inv(found, walks, target, start, k as int, None),
                forall|i: int|
                    0 <= i < 5 ==> self.contains(#[trigger] start_neighborhood[i])
                        && found.explored.at_pos(start_neighborhood[i]),
                forall|j: int|
                    0 <= j < m ==> {
                        &&& (#[trigger] scores[j]).0 == self.around(start)[j]
                        &&& scores[j].1 == Direction::all()[j]
                        &&& self.cheapest(target, scores[j].0, k as int, scores[j].2 as int)
                        &&& 0 <= scores[j].2 <= self.cost_cap(k as int)
                        &&& self.contains(scores[j].0)
                    },
            decreases 5 - m,
        {
            let cell = start_neighborhood[m];
            proof {
                self.lemma_explored_cheapest(found, walks, target, start, k as int, cell);
            }
            let cost: i64 = match *found.cost.get(cell) {
                Some(g) => g,
                None => 0,
            };
            scores.push((cell, Direction::from_index(m), cost));
            m += 1;
        }
        scores
    }

    /// With `costs` the costs of cheapest ways from `target` to the five
    /// cells around `start`, `r` is the first move of least score.
    pub open spec fn lone_choice(
        &self,
        start: Point,
        target: Point,
        forbidden: GMap<bool>,
        costs: Seq<int>,
        r: (Point, Direction),
    ) -> bool {
        &&& costs.len() == 5
        &&& forall|m: int|
            0 <= m < 5 ==> self.cheapest(
                target,
                self.around(start)[m],
                STEP_COST as int,
                #[trigger] costs[m],
            )
        &&& forall|m: int|
            0 <= m < 5 ==> lone_score(
                costs[r.1.index()],
                forbidden.at_pos(r.0),
                start == target,
                self.halite(r.0),
            ) <= lone_score(
                #[trigger] costs[m],
                forbidden.at_pos(self.around(start)[m]),
                start == target,
                self.halite(self.around(start)[m]),
            )
        &&& forall|m: int|
            0 <= m < r.1.index() ==> lone_score(
                costs[r.1.index()],
                forbidden.at_pos(r.0),
                start == target,
                self.halite(r.0),
            ) < lone_score(
                #[trigger] costs[m],
                forbidden.at_pos(self.around(start)[m]),
                start == target,
                self.halite(self.around(start)[m]),
            )
    }

    /// The move that serves a ship best when it sails alone: the first of
    /// the five, in canonical order, with the least score, where the score
    /// is the cost of a cheapest way from `target` to the move's cell at
    /// `STEP_COST` a step, raised for a forbidden cell, and lowered by four
    /// times what the cell holds if the ship stands on its target.
    #[verifier::spinoff_prover]
    pub fn backwards_a_star(&self, start: Point, target: Point, forbidden: &GMap<bool>) -> (r: (
        Point,
        Direction,
    ))
        requires
            self.map_ok(),
            self.contains(start),
            self.contains(target),
            forbidden.wf(self.w(), self.h()),
        ensures
            r.0 == self.around(start)[r.1.index()],
            exists|costs: Seq<int>| #[trigger] self.lone_choice(start, target, *forbidden, costs, r),
    {
        let scores = self.backwards_a_star_scores(start, target, STEP_COST);
        let staying = start.x == target.x && start.y == target.y;
        let ghost costs = Seq::new(5, |m: int| scores[m].2 as int);
        proof {
            self.lemma_cost_cap(STEP_COST as int);
        }
        let mut best: usize = 0;
        let mut best_score: i64 = 0;
        let mut m: usize = 0;
        while m < 5
            invariant
                self.map_ok(),
                forbidden.wf(self.w(), self.h()),
                staying == (start == target),
                scores.len() == 5,
                costs == Seq::new(5, |j: int| scores[j].2 as int),
                0 <= self.cost_cap(STEP_COST as int) <= 0x2_0000_0000_0000,
                forall|j: int|
                    0 <= j < 5 ==> {
                        &&& (#[trigger] scores[j]).0 == self.around(start)[j]
                        &&& 0 <= scores[j].2 <= self.cost_cap(STEP_COST as int)
                        &&& self.contains(scores[j].0)
                    },
                m <= 5,
                m > 0 ==> best < m && best_score == lone_score(
                    costs[best as int],
                    forbidden.at_pos(scores[best as int].0),
                    staying,
                    self.halite(scores[best as int].0),
                ),
                forall|j: int|
                    0 <= j < m ==> best_score <= lone_score(
                        #[trigger] costs[j],
                        forbidden.at_pos(scores[j].0),
                        staying,
                        self.halite(scores[j].0),
                    ),
                forall|j: int|
                    0 <= j < best && j < m ==> best_score < lone_score(
                        #[trigger] costs[j],
                        forbidden.at_pos(scores[j].0),
                        staying,
                        self.halite(scores[j].0),
                    ),
            decreases 5 - m,
        {
            let (new_pos, _d, cost) = scores[m];
            assert(scores[m as int].0 == new_pos);
            assert(costs[m as int] == cost);
            let mut score: i64 = cost;
            if *forbidden.get(new_pos) {
                score = score + BLOCKED;
            }
            if staying {
                score = score - 4 * (self.halite_at(new_pos) as i64);
            }
            if m == 0 || score < best_score {
                best_score = score;
                best = m;
            }
            m += 1;
        }
        let best_direction = Direction::from_index(best);
        let best_pos = scores[best].0;
        proof {
            assert(forall|j: int| 0 <= j < 5 ==> (#[trigger] scores[j]).0 == self.around(start)[j]);
            assert forall|j: int| 0 <= j < 5 implies self.cheapest(
                target,
                self.around(start)[j],
                STEP_COST as int,
                #[trigger] costs[j],
            ) by {
                assert(scores[j].0 == self.around(start)[j]);
            }
            assert forall|j: int| 0 <= j < 5 implies lone_score(
                costs[best as int],
                forbidden.at_pos(best_pos),
                start == target,
                self.halite(best_pos),
            ) <= lone_score(
                #[trigger] costs[j],
                forbidden.at_pos(self.around(start)[j]),
                start == target,
                self.halite(self.around(start)[j]),
            ) by {
                assert(scores[j].0 == self.around(start)[j]);
            }
            assert forall|j: int| 0 <= j < best implies lone_score(
                costs[best as int],
                forbidden.at_pos(best_pos),
                start == target,
                self.halite(best_pos),
            ) < lone_score(
                #[trigger] costs[j],
                forbidden.at_pos(self.around(start)[j]),
                start == target,
                self.halite(self.around(start)[j]),
            ) by {
                assert(scores[j].0 == self.around(start)[j]);
            }
            assert(self.lone_choice(start, target, *forbidden, costs, (best_pos, best_direction)));
        }
        (best_pos, best_direction)
    }

    /// A way from `from` to `to` that no other such way undercuts.
    pub open spec fn cheapest_walk(&self, p: Seq<Point>, from: Point, to: Point, k: int) -> bool {
        &&& self.walk_between(p, from, to)
        &&& self.is_floor(from, to, k, self.walk_cost(p, k))
    }

    /// A cheapest way between two cells next to each other is the one step
    /// from the one to the other: nothing lies between its ends.
    #[verifier::spinoff_prover]
    pub proof fn lemma_cheapest_near(&self, start: Point, goal: Point, p: Seq<Point>, k: int)
        requires
            self.map_ok(),
            self.contains(start),
            self.contains(goal),
            self.distance(start, goal) == 1,
            k > 0,
            self.cheapest_walk(p, start, goal, k),
        ensures
            p.len() == 2,
            self.walk_interior(p) == 0,
    {
        let w = self.w();
        let h = self.h();
        crate::walks::lemma_toward_adjacent(w, h, goal, start);
        crate::geometry::distance_is_symmetric(w, h, start, goal);
        let near = crate::vmaps::toward(w, h, goal, start);
        assert(near == start);
        let q = seq![start, goal];
        assert(self.is_walk(q));
        assert(self.walk_between(q, start, goal));
        assert(q.drop_last() =~= seq![start]);
        assert(self.walk_cost(q.drop_last(), k) == 0);
        assert(self.walk_cost(q, k) == k + self.halite(goal));
        assert(self.walk_cost(p, k) <= self.walk_cost(q, k));
        assert(p.len() >= 2);
        let head = p.drop_last();
        self.lemma_walk_prefix(p, p.len() - 1);
        assert(head =~= p.subrange(0, p.len() - 1));
        self.lemma_walk_cost_bounds(head, k);
        assert(self.walk_cost(p, k) == self.walk_cost(head, k) + k + self.halite(goal));
        if head.len() > 1 {
            let rest = head.drop_last();
            self.lemma_walk_prefix(head, head.len() - 1);
            assert(rest =~= head.subrange(0, head.len() - 1));
            self.lemma_walk_cost_bounds(rest, k);
            assert(self.contains(head.last()));
            assert(self.walk_cost(head, k) == self.walk_cost(rest, k) + k + self.halite(head.last()));
            assert(false);
        }
    }

    /// What lies between the ends of a way is no more than the way costs.
    pub proof fn lemma_interior_le_cost(&self, p: Seq<Point>, k: int)
        requires
            self.map_ok(),
            self.is_walk(p),
            0 <= k,
        ensures
            0 <= self.walk_interior(p) <= self.walk_cost(p, k),
        decreases p.len(),
    {
        if p.len() > 1 {
            self.lemma_walk_prefix(p, p.len() - 1);
            assert(p.drop_last() =~= p.subrange(0, p.len() - 1));
            self.lemma_interior_le_cost(p.drop_last(), k);
            assert(self.contains(p.last()));
            assert(self.halite(p.last()) >= 0);
            if p.len() > 2 {
                let q = p.drop_last();
                assert(q.last() == p[p.len() - 2]);
                assert(self.walk_cost(q, k) == self.walk_cost(q.drop_last(), k) + k + self.halite(
                    q.last(),
                ));
                self.lemma_walk_prefix(q, q.len() - 1);
                assert(q.drop_last() =~= q.subrange(0, q.len() - 1));
                self.lemma_walk_cost_bounds(q.drop_last(), k);
                if q.len() > 2 {
                    self.lemma_interior_le_cost(q.drop_last(), k);
                }
                assert(self.walk_interior(q) <= self.walk_cost(q.drop_last(), k)) by {
                    self.lemma_interior_le_prefix(q, k);
                }
            }
        }
    }

    /// What lies between the ends of a way is no more than the way costs
    /// up to its last cell but one.
    pub proof fn lemma_interior_le_prefix(&self, p: Seq<Point>, k: int)
        requires
            self.map_ok(),
            self.is_walk(p),
            0 <= k,
            p.len() >= 2,
        ensures
            0 <= self.walk_interior(p) <= self.walk_cost(p.drop_last(), k),
        decreases p.len(),
    {
        self.lemma_walk_prefix(p, p.len() - 1);
        let q = p.drop_last();
        assert(q =~= p.subrange(0, p.len() - 1));
        if p.len() > 2 {
            self.lemma_interior_le_prefix(q, k);
            assert(q.last() == p[p.len() - 2]);
            assert(self.walk_cost(q, k) == self.walk_cost(q.drop_last(), k) + k + self.halite(
                q.last(),
            ));
        }
    }

    /// Resources on the cells strictly between `start` and `goal` along a
    /// cheapest way from the one to the other, found by a search from
    /// `start` and read back from `goal`. A step onto a cell costs
    /// `STEP_COST` and what the cell holds, so that the way is a shortest one
    /// wherever the cells on it hold less than a step costs.
    pub fn halite_between(&self, start: Point, goal: Point) -> (sum: u64)
        requires
            self.map_ok(),
            self.contains(start),
            self.contains(goal),
        ensures
            exists|p: Seq<Point>| #[trigger]
                self.cheapest_walk(p, start, goal, STEP_COST as int) && sum == self.walk_interior(p),
            self.distance(start, goal) <= 1 ==> sum == 0,
    {
        if start.x == goal.x && start.y == goal.y {
            proof {
                let p = seq![start];
                assert(self.is_walk(p));
                assert forall|q: Seq<Point>| #[trigger]
                    self.walk_between(q, start, goal) implies self.walk_cost(q, STEP_COST as int)
                    >= self.walk_cost(p, STEP_COST as int) by {
                    self.lemma_walk_cost_bounds(q, STEP_COST as int);
                }
                assert(self.cheapest_walk(p, start, goal, STEP_COST as int));
                assert(self.walk_interior(p) == 0);
            }
            return 0;
        }
        let mut wanted: Vec<Point> = Vec::new();
        wanted.push(goal);
        let (found, Ghost(walks)) = self.explore(start, start, STEP_COST, &wanted);
        let ghost k = STEP_COST as int;
        proof {
            assert(found.explored.at_pos(wanted[0]));
            self.lemma_explored_cheapest(found, walks, start, start, k, goal);
            assert(self.cell_ok(found, walks, start, start, k, goal));
        }
        let ghost way = walks[goal];
        proof {
            assert(self.cell_ok(found, walks, start, start, k, goal));
            assert(self.cheapest_walk(way, start, goal, k));
            self.lemma_interior_le_cost(way, k);
            self.lemma_cost_cap(k);
            if self.distance(start, goal) == 1 {
                self.lemma_cheapest_near(start, goal, way, k);
            }
        }
        let mut sum: u64 = 0;
        let mut node = goal;
        loop
            invariant
                self.map_ok(),
                self.contains(start),
                self.contains(node),
                k == STEP_COST,
                self.search_inv(found, walks, start, start, k, None),
                found.cost.at_pos(node).is_some(),
                node != start,
                goal != start,
                self.distance(start, goal) <= 1 ==> self.walk_interior(way) == 0,
                walks.contains_key(node),
                self.walk_interior(way) == sum + self.walk_interior(walks[node]),
                0 <= self.walk_interior(way) <= 0x2_0000_0000_0000,
                self.cheapest_walk(way, start, goal, k),
            decreases walks[node].len(),
        {
            proof {
                assert(self.cell_ok(found, walks, start, start, k, node));
                assert(self.cell_ok(found, walks, start, start, k, start));
            }
            match *found.came_from.get(node) {
                Some(prev) => {
                    proof {
                        assert(self.cell_ok(found, walks, start, start, k, prev));
                        let wn = walks[node];
                        let wp = walks[prev];
                        assert(wn == wp.push(node));
                        assert(wn.drop_last() =~= wp);
                        assert(wn[wn.len() - 2] == prev);
                        if prev == start {
                            // only the first cell of a way from the start costs nothing
                            match found.came_from.at_pos(start) {
                                Some(pp) => {
                                    let ws = walks[start];
                                    assert(self.cell_ok(found, walks, start, start, k, pp));
                                    assert(ws == walks[pp].push(start));
                                    assert(ws.drop_last() =~= walks[pp]);
                                    self.lemma_walk_cost_bounds(walks[pp], k);
                                    assert(self.halite(start) >= 0);
                                    assert(false);
                                },
                                None => {},
                            }
                            assert(wp.len() == 1);
                        } else {
                            assert(wp[0] == start && wp.last() == prev);
                            assert(wp.len() >= 2);
                        }
                        self.lemma_interior_le_cost(walks[prev], k);
                    }
                    if prev.x == start.x && prev.y == start.y {
                        return sum;
                    }
                    sum = sum + (self.halite_at(prev) as u64);
                    node = prev;
                },
                None => {
                    return sum;
                },
            }
        }
    }
}

} // verus!
