//! What the planner remembers of its ships, and how a turn begins.

use vstd::prelude::*;
use std::collections::HashMap;
use crate::data::{Point, Ship};
use crate::game::Game;
use crate::geometry::{lemma_wrap_range, ring, ring_near};
use crate::goals::GoalType;
use crate::lists::{lemma_filter_push, lemma_filter_same};
use crate::priority::ShipPriority;
use crate::vmaps::{base_dist, first_nearest, lemma_distance_bound};

verus! {

/// What the planner remembers of one ship from turn to turn.
#[derive(Debug, Copy, Clone, PartialEq, Eq, Structural)]
pub struct ShipMemory {
    /// What the ship was doing when the last turn ended.
    pub goal_type: GoalType,
    /// For how many turns in a row the ship has not moved while a hostile
    /// ship was close by.
    pub turns_stuck: usize,
    /// Where the ship was when it was last seen.
    pub prev_pos: Point,
}

/// The numbers that depend on the size of the match and on how far it has come.
#[derive(Debug, Copy, Clone, PartialEq, Eq, Structural)]
pub struct TurnRules {
    /// Turns until the match ends.
    pub turns_left: usize,
    /// How far a new deposit site must be from the existing ones.
    pub dropoff_spacing: usize,
    /// How many turns more than its way home a ship is given at the end.
    pub endgame_margin: usize,
    /// How many turns before the end no more ships are built.
    pub stop_spawn_margin: usize,
}

impl Game {
    /// A ship of another player stands on `p`.
    pub open spec fn enemy_on(&self, p: Point) -> bool {
        match self.ship_map.at_pos(p) {
            Some(o) => self.ships@[o].player != self.my_pid,
            None => false,
        }
    }

    /// A ship of another player stands one or two steps from `pos`.
    pub open spec fn enemy_near(&self, pos: Point) -> bool {
        exists|i: int|
            0 <= i < self.rings(pos, 1, 3).len() && self.enemy_on(#[trigger] self.rings(pos, 1, 3)[i])
    }

    /// The own ships, as the roster lists them.
    pub open spec fn my_ships(&self) -> Seq<usize> {
        self.roster(self.my_pid as int)
    }

    /// The margin that a ship is given on its way home at the end of the
    /// match, for a fleet of the given size.
    pub open spec fn endgame_margin(&self, fleet: int) -> int {
        let base: int = if self.num_players == 4 {
            if self.width >= 40 { 6 } else { 5 }
        } else {
            3
        };
        if self.turn_number + 2 * self.width == self.constants.max_turns {
            if fleet > 50 {
                base + 3
            } else if fleet > 30 {
                base + 2
            } else {
                base
            }
        } else {
            base
        }
    }

    /// The rules of this turn for a fleet of the given size.
    pub open spec fn rules_for(&self, fleet: int) -> TurnRules {
        TurnRules {
            turns_left: (self.constants.max_turns - self.turn_number) as usize,
            dropoff_spacing: if self.num_players == 4 && self.width <= 32 { 11 } else { 15 },
            endgame_margin: self.endgame_margin(fleet) as usize,
            stop_spawn_margin: if self.num_players == 4 {
                if self.width >= 64 { 250 } else { 225 }
            } else {
                200
            },
        }
    }

    /// Every cell of a ring lies on the grid.
    pub proof fn lemma_ring_in_grid(&self, c: Point, d: int, i: int)
        requires
            self.dims_ok(),
            self.contains(c),
            0 <= i < self.ring_at(c, d).len(),
        ensures
            self.contains(self.ring_at(c, d)[i]),
    {
        let w = self.w();
        let h = self.h();
        if d <= w / 2 {
            if d > 0 {
                let o = crate::geometry::ring_offset(d, crate::geometry::ring_skip(w, d), i);
                lemma_wrap_range(c.x + o.0, w);
                lemma_wrap_range(c.y + o.1, h);
            }
        } else if d <= w {
            lemma_wrap_range(c.x + w / 2, w);
            lemma_wrap_range(c.y + h / 2, h);
            let a = crate::geometry::antipode(w, h, c);
            let e = w - d;
            if e > 0 {
                let o = crate::geometry::ring_offset(e, crate::geometry::ring_skip(w, e), i);
                lemma_wrap_range(a.x + o.0, w);
                lemma_wrap_range(a.y + o.1, h);
            }
        }
    }

    /// Every cell of a run of rings lies on the grid.
    pub proof fn lemma_rings_in_grid(&self, c: Point, lo: int, hi: int)
        requires
            self.dims_ok(),
            self.contains(c),
        ensures
            forall|i: int|
                0 <= i < self.rings(c, lo, hi).len() ==> self.contains(
                    #[trigger] self.rings(c, lo, hi)[i],
                ),
        decreases hi - lo,
    {
        if hi > lo {
            self.lemma_rings_in_grid(c, lo, hi - 1);
            let head = self.rings(c, lo, hi - 1);
            let tail = self.ring_at(c, hi - 1);
            assert forall|i: int| 0 <= i < self.rings(c, lo, hi).len() implies self.contains(
                #[trigger] self.rings(c, lo, hi)[i],
            ) by {
                if i < head.len() {
                    assert(self.rings(c, lo, hi)[i] == head[i]);
                } else {
                    assert(self.rings(c, lo, hi)[i] == tail[i - head.len()]);
                    self.lemma_ring_in_grid(c, hi - 1, i - head.len());
                }
            }
        }
    }

    /// The rules of this turn.
    pub fn turn_rules(&self, fleet: usize) -> (r: TurnRules)
        requires
            self.dims_ok(),
            self.rules_ok(),
        ensures
            r == self.rules_for(fleet as int),
    {
        let four = self.num_players == 4;
        let mut endgame_margin: usize = if four {
            if self.width >= 40 { 6 } else { 5 }
        } else {
            3
        };
        if self.turn_number as u64 + 2 * (self.width as u64) == self.constants.max_turns as u64 {
            if fleet > 50 {
                endgame_margin += 3;
            } else if fleet > 30 {
                endgame_margin += 2;
            }
        }
        TurnRules {
            turns_left: self.constants.max_turns - self.turn_number,
            dropoff_spacing: if four && self.width <= 32 { 11 } else { 15 },
            endgame_margin,
            stop_spawn_margin: if four {
                if self.width >= 64 { 250 } else { 225 }
            } else {
                200
            },
        }
    }

    /// Whether a ship of another player stands one or two steps from `pos`.
    pub fn is_enemy_near(&self, pos: Point) -> (r: bool)
        requires
            crate::geometry::square_even(self.w(), self.h()),
            self.ships_ok(),
            self.contains(pos),
        ensures
            r == self.enemy_near(pos),
    {
        let cells = self.tiles_between_dist(pos, 1, 2);
        proof {
            self.lemma_rings_in_grid(pos, 1, 3);
        }
        let mut i: usize = 0;
        while i < cells.len()
            invariant
                self.dims_ok(),
                self.ships_ok(),
                cells@ == self.rings(pos, 1, 3),
                forall|j: int| 0 <= j < cells.len() ==> self.contains(#[trigger] cells[j]),
                i <= cells.len(),
                forall|j: int| 0 <= j < i ==> !self.enemy_on(#[trigger] cells[j]),
            decreases cells.len() - i,
        {
            let p = cells[i];
            assert(self.contains(cells[i as int]));
            match *self.ship_map.get(p) {
                Some(o_id) => {
                    let other = self.ship(o_id);
                    if other.player != self.my_pid {
                        assert(self.enemy_on(cells[i as int]));
                        return true;
                    }
                },
                None => {},
            }
            i += 1;
        }
        false
    }
}

/// What is remembered of the ship `id` once it has been seen this turn.
/// A ship seen for the first time is taken to be mining and not stuck. A
/// ship known from before keeps what it was doing; it counts as stuck for
/// one turn more if it stands where it stood and a hostile ship is close by,
/// else as not stuck. The count stops at what a machine word holds.
pub open spec fn remembered(game: Game, before: Map<usize, ShipMemory>, id: usize) -> ShipMemory {
    let ship = game.ships@[id];
    if before.contains_key(id) {
        ShipMemory {
            goal_type: before[id].goal_type,
            turns_stuck: if ship.pos == before[id].prev_pos && game.enemy_near(ship.pos) {
                if before[id].turns_stuck < usize::MAX {
                    (before[id].turns_stuck + 1) as usize
                } else {
                    before[id].turns_stuck
                }
            } else {
                0
            },
            prev_pos: ship.pos,
        }
    } else {
        ShipMemory { goal_type: GoalType::Mine, turns_stuck: 0, prev_pos: ship.pos }
    }
}

/// What is remembered of the own ships after they have been seen this
/// turn: of every ship of the roster, and of no ship that is gone.
pub fn recall(game: &Game, before: &HashMap<usize, ShipMemory>) -> (after: HashMap<usize, ShipMemory>)
    requires
        game.wf(),
    ensures
        forall|id: usize| #[trigger] after@.contains_key(id) <==> game.my_ships().contains(id),
        forall|id: usize|
            game.my_ships().contains(id) ==> #[trigger] after@[id] == remembered(
                *game,
                before@,
                id,
            ),
{
    broadcast use vstd::std_specs::hash::group_hash_axioms;

    let mut after: HashMap<usize, ShipMemory> = HashMap::new();
    let ids = &game.ship_id_by_player[game.my_pid];
    let mut i: usize = 0;
    while i < ids.len()
        invariant
            game.wf(),
            ids@ == game.my_ships(),
            i <= ids.len(),
            forall|id: usize| #[trigger]
                after@.contains_key(id) <==> exists|j: int| 0 <= j < i && ids[j] == id,
            forall|j: int|
                0 <= j < i ==> after@[#[trigger] ids[j]] == remembered(*game, before@, ids[j]),
        decreases ids.len() - i,
    {
        let id = ids[i];
        assert(game.ships@.contains_key(game.roster(game.my_pid as int)[i as int]));
        let ship = game.ship(id);
        assert(game.ship_ok(id, game.ships@[id]));
        let entry = match before.get(&id) {
            Some(m) => {
                let stuck = ship.pos.x == m.prev_pos.x && ship.pos.y == m.prev_pos.y
                    && game.is_enemy_near(ship.pos);
                ShipMemory {
                    goal_type: m.goal_type,
                    turns_stuck: if stuck {
                        if m.turns_stuck < usize::MAX {
                            m.turns_stuck + 1
                        } else {
                            m.turns_stuck
                        }
                    } else {
                        0
                    },
                    prev_pos: ship.pos,
                }
            },
            None => ShipMemory { goal_type: GoalType::Mine, turns_stuck: 0, prev_pos: ship.pos },
        };
        assert(entry == remembered(*game, before@, id));
        let ghost prior = after@;
        after.insert(id, entry);
        proof {
            assert forall|x: usize| #[trigger] after@.contains_key(x) <==> exists|j: int|
                0 <= j < i + 1 && ids[j] == x by {
                if x == id {
                    assert(ids[i as int] == x);
                } else {
                    if prior.contains_key(x) {
                        let j = choose|j: int| 0 <= j < i && ids[j] == x;
                        assert(ids[j] == x);
                    }
                    if exists|j: int| 0 <= j < i + 1 && ids[j] == x {
                        let j = choose|j: int| 0 <= j < i + 1 && ids[j] == x;
                        assert(j < i);
                    }
                }
            }
        }
        i += 1;
    }
    proof {
        assert forall|id: usize| #[trigger] after@.contains_key(id) <==> game.my_ships().contains(
            id,
        ) by {
            if after@.contains_key(id) {
                let j = choose|j: int| 0 <= j < ids.len() && ids[j] == id;
                assert(game.my_ships()[j] == id);
            }
            if game.my_ships().contains(id) {
                let j = choose|j: int| 0 <= j < game.my_ships().len() && game.my_ships()[j] == id;
                assert(ids[j] == id);
            }
        }
        assert forall|id: usize| game.my_ships().contains(id) implies #[trigger] after@[id]
            == remembered(*game, before@, id) by {
            let j = choose|j: int| 0 <= j < game.my_ships().len() && game.my_ships()[j] == id;
            assert(ids[j] == id);
        }
    }
    after
}

/// A ship that cannot pay for leaving its cell: a tenth of what the cell
/// holds is more than the ship carries.
pub open spec fn cannot_move(game: Game, s: Ship) -> bool {
    game.halite(s.pos) / 10 > s.halite
}

/// The own ships that can move, in the order of the roster, but for the
/// ship `skip`.
pub open spec fn movable_ships(game: Game, skip: Option<usize>) -> Seq<usize> {
    game.my_ships().filter(|id: usize| Some(id) != skip && !cannot_move(game, game.ships@[id]))
}

/// The own ships that cannot move, in the order of the roster, but for the
/// ship `skip`.
pub open spec fn idle_ships(game: Game, skip: Option<usize>) -> Seq<usize> {
    game.my_ships().filter(|id: usize| Some(id) != skip && cannot_move(game, game.ships@[id]))
}

/// The own ships that can move this turn and those that cannot, each in
/// the order of the roster. The ship `skip`, if any, is in neither list.
pub fn split_fleet(game: &Game, skip: Option<usize>) -> (r: (Vec<usize>, Vec<usize>))
    requires
        game.wf(),
    ensures
        r.0@ == movable_ships(*game, skip),
        r.1@ == idle_ships(*game, skip),
{
    let ids = &game.ship_id_by_player[game.my_pid];
    let ghost can = |id: usize| Some(id) != skip && !cannot_move(*game, game.ships@[id]);
    let ghost cannot = |id: usize| Some(id) != skip && cannot_move(*game, game.ships@[id]);
    let mut my_movable: Vec<usize> = Vec::new();
    let mut my_immovable: Vec<usize> = Vec::new();
    let mut i: usize = 0;
    assert(ids@.subrange(0, 0) =~= Seq::<usize>::empty());
    while i < ids.len()
        invariant
            game.wf(),
            ids@ == game.my_ships(),
            i <= ids.len(),
            can == |id: usize| Some(id) != skip && !cannot_move(*game, game.ships@[id]),
            cannot == |id: usize| Some(id) != skip && cannot_move(*game, game.ships@[id]),
            my_movable@ == ids@.subrange(0, i as int).filter(can),
            my_immovable@ == ids@.subrange(0, i as int).filter(cannot),
        decreases ids.len() - i,
    {
        let id = ids[i];
        assert(game.ships@.contains_key(game.roster(game.my_pid as int)[i as int]));
        let ship = game.ship(id);
        assert(game.ship_ok(id, game.ships@[id]));
        let skipped = match skip {
            Some(s) => s == id,
            None => false,
        };
        proof {
            assert(ids@.subrange(0, i as int + 1) =~= ids@.subrange(0, i as int).push(id));
            lemma_filter_push(ids@.subrange(0, i as int), can, id);
            lemma_filter_push(ids@.subrange(0, i as int), cannot, id);
        }
        if !skipped {
            if (game.halite_at(ship.pos) / 10) as i64 > ship.halite as i64 {
                my_immovable.push(id);
            } else {
                my_movable.push(id);
            }
        }
        i += 1;
    }
    assert(ids@.subrange(0, ids.len() as int) =~= ids@);
    (my_movable, my_immovable)
}

/// Whether a ship must turn home now to arrive before the match ends.
pub open spec fn collects(game: Game, ship: Ship, rules: TurnRules) -> bool {
    game.nearest_drop_pt_dist.at_pos(ship.pos) + rules.endgame_margin >= rules.turns_left
}

/// What a ship does next, given what it did, where it is and what it carries.
///
/// A ship on its way home turns to mining again when it is home, unless
/// the fleet is cashing out. A ship that mines or is on its way to a mine
/// turns home when it carries 950 or more, or when it must to arrive in time,
/// whatever its cell holds; else it mines while its cell holds more than a
/// tenth of a full cargo, and moves on when it does not.
pub open spec fn next_goal_type(
    game: Game,
    ship: Ship,
    goal_type: GoalType,
    rules: TurnRules,
    endgame: bool,
) -> GoalType {
    let rich = game.halite(ship.pos) > game.constants.max_halite / 10;
    match goal_type {
        GoalType::Deposit => if game.is_home(ship.pos) && !endgame {
            GoalType::TowardsMine
        } else {
            GoalType::Deposit
        },
        GoalType::TowardsMine => if ship.halite >= 950 || collects(game, ship, rules) {
            GoalType::Deposit
        } else if rich {
            GoalType::Mine
        } else {
            GoalType::TowardsMine
        },
        GoalType::Mine => if ship.halite >= 950 || collects(game, ship, rules) {
            GoalType::Deposit
        } else if rich {
            GoalType::Mine
        } else {
            GoalType::TowardsMine
        },
    }
}

/// Whether the fleet is cashing out once the first `n` of the ships
/// `movable` have been looked at: it was before, or one of them must turn
/// home to arrive in time.
pub open spec fn endgame_after(
    game: Game,
    movable: Seq<usize>,
    rules: TurnRules,
    endgame: bool,
    n: int,
) -> bool {
    endgame || exists|k: int| 0 <= k < n && collects(game, game.ships@[#[trigger] movable[k]], rules)
}

/// Lets every movable ship decide what it does next, one after the other.
/// The fleet begins to cash out as soon as one ship must turn home to arrive
/// in time.
#[verifier::spinoff_prover]
pub fn update_goal_types(
    memory: &mut HashMap<usize, ShipMemory>,
    endgame: &mut bool,
    game: &Game,
    movable: &Vec<usize>,
    rules: TurnRules,
)
    requires
        game.wf(),
        movable@.no_duplicates(),
        forall|i: int|
            0 <= i < movable.len() ==> game.ships@.contains_key(#[trigger] movable[i]) && old(
                memory,
            )@.contains_key(movable[i]),
    ensures
        *final(endgame) == endgame_after(*game, movable@, rules, *old(endgame), movable.len() as int),
        forall|id: usize| #[trigger] final(memory)@.contains_key(id) <==> old(memory)@.contains_key(id),
        forall|id: usize|
            old(memory)@.contains_key(id) && !movable@.contains(id) ==> #[trigger] final(memory)@[id]
                == old(memory)@[id],
        forall|i: int|
            0 <= i < movable.len() ==> #[trigger] final(memory)@[movable[i]] == (ShipMemory {
                goal_type: next_goal_type(
                    *game,
                    game.ships@[movable[i]],
                    old(memory)@[movable[i]].goal_type,
                    rules,
                    endgame_after(*game, movable@, rules, *old(endgame), i + 1),
                ),
                ..old(memory)@[movable[i]]
            }),
{
    broadcast use vstd::std_specs::hash::group_hash_axioms;

    let ghost before = memory@;
    let ghost endgame0 = *endgame;
    let mut i: usize = 0;
    while i < movable.len()
        invariant
            game.wf(),
            movable@.no_duplicates(),
            i <= movable.len(),
            forall|j: int|
                0 <= j < movable.len() ==> game.ships@.contains_key(#[trigger] movable[j])
                    && before.contains_key(movable[j]),
            *endgame == endgame_after(*game, movable@, rules, endgame0, i as int),
            forall|id: usize| #[trigger] memory@.contains_key(id) <==> before.contains_key(id),
            forall|id: usize|
                before.contains_key(id) && !(exists|j: int| 0 <= j < i && movable[j] == id)
                    ==> #[trigger] memory@[id] == before[id],
            forall|j: int|
                0 <= j < i ==> #[trigger] memory@[movable[j]] == (ShipMemory {
                    goal_type: next_goal_type(
                        *game,
                        game.ships@[movable[j]],
                        before[movable[j]].goal_type,
                        rules,
                        endgame_after(*game, movable@, rules, endgame0, j + 1),
                    ),
                    ..before[movable[j]]
                }),
        decreases movable.len() - i,
    {
        let id = movable[i];
        let ship = game.ship(id);
        assert(game.ship_ok(id, game.ships@[id]));
        let dist_to_drop = *game.nearest_drop_pt_dist.get(ship.pos);
        let endgame_collect = dist_to_drop as u128 + rules.endgame_margin as u128
            >= rules.turns_left as u128;
        assert(endgame_collect == collects(*game, ship, rules));
        if endgame_collect && !*endgame {
            *endgame = true;
        }
        proof {
            assert(*endgame == endgame_after(*game, movable@, rules, endgame0, i as int + 1)) by {
                if endgame_after(*game, movable@, rules, endgame0, i as int + 1) && !endgame0 {
                    let k = choose|k: int|
                        0 <= k < i + 1 && collects(*game, game.ships@[#[trigger] movable[k]], rules);
                    if k < i {
                        assert(endgame_after(*game, movable@, rules, endgame0, i as int));
                    }
                }
                if endgame_collect {
                    assert(collects(*game, game.ships@[movable[i as int]], rules));
                }
            }
            assert(!(exists|j: int| 0 <= j < i && movable[j] == id)) by {
                if exists|j: int| 0 <= j < i && movable[j] == id {
                    let j = choose|j: int| 0 <= j < i && movable[j] == id;
                    assert(movable@[j] == movable@[i as int]);
                }
            }
        }
        let known = match memory.get(&id) {
            Some(m) => *m,
            None => vstd::pervasive::unreached(),
        };
        assert(known == before[id]);
        let rich = game.halite_at(ship.pos) > game.constants.max_halite / 10;
        let full = ship.halite >= 950;
        let next = match known.goal_type {
            GoalType::Deposit => {
                if crate::goals::has_point(&game.my_drop_pts, ship.pos) && !*endgame {
                    GoalType::TowardsMine
                } else {
                    GoalType::Deposit
                }
            },
            GoalType::TowardsMine => {
                if full || endgame_collect {
                    GoalType::Deposit
                } else if rich {
                    GoalType::Mine
                } else {
                    GoalType::TowardsMine
                }
            },
            GoalType::Mine => {
                if full || endgame_collect {
                    GoalType::Deposit
                } else if rich {
                    GoalType::Mine
                } else {
                    GoalType::TowardsMine
                }
            },
        };
        let ghost prior = memory@;
        memory.insert(
            id,
            ShipMemory { goal_type: next, turns_stuck: known.turns_stuck, prev_pos: known.prev_pos },
        );
        proof {
            assert forall|x: usize|
                before.contains_key(x) && !(exists|j: int|
                    0 <= j < i + 1 && movable[j] == x) implies #[trigger] memory@[x]
                == before[x] by {
                assert(x != id);
                assert(!(exists|j: int| 0 <= j < i && movable[j] == x)) by {
                    if exists|j: int| 0 <= j < i && movable[j] == x {
                        let j = choose|j: int| 0 <= j < i && movable[j] == x;
                        assert(movable[j] == x);
                    }
                }
                assert(prior[x] == before[x]);
            }
            assert forall|j: int| 0 <= j < i + 1 implies #[trigger] memory@[movable[j]]
                == (ShipMemory {
                goal_type: next_goal_type(
                    *game,
                    game.ships@[movable[j]],
                    before[movable[j]].goal_type,
                    rules,
                    endgame_after(*game, movable@, rules, endgame0, j + 1),
                ),
                ..before[movable[j]]
            }) by {
                if j < i {
                    assert(movable@[j] != movable@[i as int]);
                    assert(prior[movable[j]] == memory@[movable[j]]);
                }
            }
        }
        i += 1;
    }
    proof {
        assert forall|id: usize|
            before.contains_key(id) && !movable@.contains(id) implies #[trigger] memory@[id]
            == before[id] by {
            if exists|j: int| 0 <= j < movable.len() && movable[j] == id {
                let j = choose|j: int| 0 <= j < movable.len() && movable[j] == id;
                assert(movable@[j] == id);
            }
        }
    }
}

/// The weight by which a ship takes its turn at picking a move; the
/// least goes first.
///
/// Three for every step from home, less 300 for a ship that is home. A
/// ship on its way home goes 300 earlier and earlier by a tenth of its cargo.
/// A mining ship goes 150 earlier and earlier by a twentieth of what its
/// cell holds. A ship on its way to a mine goes earlier by a twentieth of
/// what its cell holds and later by one for every step left to its target.
pub open spec fn move_priority(game: Game, ship: Ship, goal_type: GoalType, target: Point) -> int {
    let drop_pos = game.my_drop_pts[game.nearest_drop_pt_idx.at_pos(ship.pos) as int];
    3 * game.distance(ship.pos, drop_pos) - (if ship.pos == drop_pos { 300int } else { 0int })
        + match goal_type {
        GoalType::Deposit => -300 - ship.halite / 10,
        GoalType::Mine => -150 - game.halite(ship.pos) / 20,
        GoalType::TowardsMine => -(game.halite(ship.pos) / 20) + game.distance(ship.pos, target),
    }
}

/// The weight by which `ship` takes its turn at picking a move.
pub fn ship_priority(game: &Game, ship: &Ship, goal_type: GoalType, target: Point) -> (w: i64)
    requires
        game.wf(),
        game.contains(ship.pos),
        game.contains(target),
        0 <= ship.halite <= crate::game::MAX_CELL,
    ensures
        w == move_priority(*game, *ship, goal_type, target),
        -0x1_0000_0000 <= w <= 0x1_0000_0000,
{
    let drop_pos = game.nearest_drop_pos(ship.pos);
    let mut priority: i64 = 3 * (game.dist(ship.pos, drop_pos) as i64);
    if ship.pos.x == drop_pos.x && ship.pos.y == drop_pos.y {
        priority = priority - 300;
    }
    match goal_type {
        GoalType::Deposit => {
            priority = priority - 300;
            priority = priority - (ship.halite as i64) / 10;
        },
        GoalType::Mine => {
            priority = priority - 150;
            priority = priority - (game.halite_at(ship.pos) as i64) / 20;
        },
        GoalType::TowardsMine => {
            priority = priority - (game.halite_at(ship.pos) as i64) / 20;
            priority = priority + (game.dist(ship.pos, target) as i64);
        },
    }
    priority
}

/// The `a`-th entry is served before the `b`-th: it weighs less, or as
/// much and stands before it.
pub open spec fn served_before(entries: Seq<ShipPriority>, a: int, b: int) -> bool {
    entries[a].w < entries[b].w || (entries[a].w == entries[b].w && a < b)
}

/// `order` lists the places of all entries in the order in which they
/// are served.
pub open spec fn service_order(entries: Seq<ShipPriority>, order: Seq<usize>) -> bool {
    &&& order.len() == entries.len()
    &&& forall|i: int| 0 <= i < order.len() ==> (#[trigger] order[i]) < entries.len()
    &&& forall|i: int, j: int|
        0 <= i < j < order.len() ==> served_before(entries, order[i] as int, order[j] as int)
    &&& forall|v: usize| v < entries.len() ==> #[trigger] order.contains(v)
}

/// The places of the entries in the order in which they are served: the
/// least weight first; of equal weights, the one that was entered first.
pub fn order_by_priority(entries: &Vec<ShipPriority>) -> (order: Vec<usize>)
    ensures
        service_order(entries@, order@),
{
    let mut order: Vec<usize> = Vec::new();
    let mut i: usize = 0;
    while i < entries.len()
        invariant
            i <= entries.len(),
            order.len() == i,
            forall|a: int| 0 <= a < order.len() ==> (#[trigger] order[a]) < i,
            forall|a: int, b: int|
                0 <= a < b < order.len() ==> served_before(entries@, order[a] as int, order[b] as int),
            forall|v: usize| v < i ==> #[trigger] order@.contains(v),
        decreases entries.len() - i,
    {
        let w = entries[i].w;
        let mut p: usize = 0;
        while p < order.len() && entries[order[p]].w <= w
            invariant
                i < entries.len(),
                order.len() == i,
                p <= order.len(),
                w == entries[i as int].w,
                forall|a: int| 0 <= a < order.len() ==> (#[trigger] order[a]) < i,
                forall|a: int| 0 <= a < p ==> entries[(#[trigger] order[a]) as int].w <= w,
            decreases order.len() - p,
        {
            p += 1;
        }
        let ghost before = order@;
        order.insert(p, i);
        proof {
            assert forall|a: int, b: int| 0 <= a < b < order.len() implies served_before(
                entries@,
                order[a] as int,
                order[b] as int,
            ) by {
                let oa = if a < p { a } else { a - 1 };
                let ob = if b < p { b } else { b - 1 };
                if a != p && b != p {
                    assert(order[a] == before[oa]);
                    assert(order[b] == before[ob]);
                    assert(served_before(entries@, before[oa] as int, before[ob] as int));
                } else if a == p {
                    assert(order[b] == before[ob]);
                    assert(order[a] == i);
                    if p < before.len() {
                        assert(entries[before[p as int] as int].w > w);
                        if ob > p {
                            assert(served_before(
                                entries@,
                                before[p as int] as int,
                                before[ob] as int,
                            ));
                        }
                    }
                } else {
                    assert(order[a] == before[oa]);
                    assert(order[b] == i);
                    assert(entries[before[oa] as int].w <= w);
                    assert(before[oa] < i);
                }
            }
            assert forall|v: usize| v < i + 1 implies #[trigger] order@.contains(v) by {
                if v == i {
                    assert(order@[p as int] == v);
                } else {
                    assert(before.contains(v));
                    let a = choose|a: int| 0 <= a < before.len() && before[a] == v;
                    if a < p {
                        assert(order@[a] == v);
                    } else {
                        assert(order@[a + 1] == v);
                    }
                }
            }
            assert forall|a: int| 0 <= a < order.len() implies (#[trigger] order[a]) < i + 1 by {
                if a < p {
                    assert(order[a] == before[a]);
                } else if a > p {
                    assert(order[a] == before[a - 1]);
                }
            }
        }
        i += 1;
    }
    order
}

} // verus!
