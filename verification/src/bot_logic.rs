//! The planner: one call per turn turns a snapshot into commands.

use vstd::prelude::*;
use std::collections::HashMap;
use crate::assign::{greedy_pairing, table_ok};
use crate::data::{Direction, Point, Ship, ShipCommand};
use crate::fleet::ShipMemory;
use crate::game::{Game, MAX_CELL};
use crate::gmap::GMap;
use crate::conflict::{
    committed_moves_are_apart, dest, first_round, holds, reroutes, taken_by, Board, Candidate,
    FirstPass, Mover, SCORE_CAP,
};
use crate::clusters::{firsts, new_sites};
use crate::assign::assign_greedy;
use crate::dropoff::{choose_dropoff_ship, prune_candidates};
use crate::fleet::{
    cannot_move, endgame_after, idle_ships, movable_ships, move_priority, next_goal_type,
    order_by_priority, recall, remembered, service_order, ship_priority, split_fleet,
    update_goal_types, TurnRules,
};
use crate::goals::pick_goals;
use crate::goals::{goal_cells, has_point, miner_goal_terms, Goal, GoalTerms, GoalType};
use crate::pathfinding::STEP_COST;
use crate::priority::ShipPriority;

verus! {

/// A place where a new deposit site would pay.
#[derive(Debug, Copy, Clone, PartialEq, Eq, Structural)]
pub struct DropoffCandidate {
    pub center: Point,
    /// How near to the centre a ship must be to build the site.
    pub dist: usize,
}

/// What the worth of a hostile ship's threat to a move is made of.
#[derive(Debug, Copy, Clone, PartialEq, Eq, Structural)]
pub struct ThreatTerms {
    /// Chance in percent that a hostile ship ends the turn on the cell.
    pub forecast: usize,
    /// How far the ship is from the nearest own deposit site.
    pub dist_to_dropoff: usize,
    pub turn_number: usize,
    pub max_turns: usize,
    /// What the ship carries.
    pub cargo: isize,
    /// For how many turns the ship has been stuck.
    pub turns_stuck: usize,
}

/// A ship that can move this turn, with what the planner holds of it.
#[derive(Debug, Copy, Clone, PartialEq, Eq, Structural)]
pub struct Sailor {
    pub ship: Ship,
    pub goal_type: GoalType,
    pub turns_stuck: usize,
    /// The cell the ship is to sail to.
    pub target: Point,
}

/// The crew fits the snapshot: every sailor is one of its ships, on the
/// grid, with a target on the grid, and no ship is listed twice.
pub open spec fn crew_ok(game: Game, crew: Seq<Sailor>) -> bool {
    &&& forall|i: int|
        0 <= i < crew.len() ==> {
            &&& game.ships@.contains_key((#[trigger] crew[i]).ship.ship_id)
            &&& game.ships@[crew[i].ship.ship_id] == crew[i].ship
            &&& game.contains(crew[i].ship.pos)
            &&& game.contains(crew[i].target)
            &&& 0 <= crew[i].ship.halite <= MAX_CELL
        }
    &&& forall|i: int, j: int|
        0 <= i < j < crew.len() ==> crew[i].ship.ship_id != crew[j].ship.ship_id
}

/// The movable ships as the planner sees them when the turn begins: each
/// with what is remembered of it, and bound for the nearest deposit site.
pub fn muster(game: &Game, memory: &HashMap<usize, ShipMemory>, movable: &Vec<usize>) -> (crew: Vec<
    Sailor,
>)
    requires
        game.wf(),
        movable@.no_duplicates(),
        forall|i: int|
            0 <= i < movable.len() ==> game.ships@.contains_key(#[trigger] movable[i])
                && memory@.contains_key(movable[i]),
    ensures
        crew.len() == movable.len(),
        crew_ok(*game, crew@),
        forall|i: int|
            0 <= i < crew.len() ==> {
                &&& (#[trigger] crew[i]).ship == game.ships@[movable[i]]
                &&& crew[i].ship.ship_id == movable[i]
                &&& crew[i].goal_type == memory@[movable[i]].goal_type
                &&& crew[i].turns_stuck == memory@[movable[i]].turns_stuck
                &&& crew[i].target == game.my_drop_pts[game.nearest_drop_pt_idx.at_pos(
                    crew[i].ship.pos,
                ) as int]
            },
{
    broadcast use vstd::std_specs::hash::group_hash_axioms;

    let mut crew: Vec<Sailor> = Vec::new();
    let mut i: usize = 0;
    while i < movable.len()
        invariant
            game.wf(),
            movable@.no_duplicates(),
            forall|j: int|
                0 <= j < movable.len() ==> game.ships@.contains_key(#[trigger] movable[j])
                    && memory@.contains_key(movable[j]),
            i <= movable.len(),
            crew.len() == i,
            forall|j: int|
                0 <= j < i ==> {
                    &&& (#[trigger] crew[j]).ship == game.ships@[movable[j]]
                    &&& crew[j].ship.ship_id == movable[j]
                    &&& crew[j].goal_type == memory@[movable[j]].goal_type
                    &&& crew[j].turns_stuck == memory@[movable[j]].turns_stuck
                    &&& crew[j].target == game.my_drop_pts[game.nearest_drop_pt_idx.at_pos(
                        crew[j].ship.pos,
                    ) as int]
                    &&& game.contains(crew[j].ship.pos)
                    &&& game.contains(crew[j].target)
                    &&& 0 <= crew[j].ship.halite <= MAX_CELL
                },
        decreases movable.len() - i,
    {
        let id = movable[i];
        let ship = game.ship(id);
        assert(game.ship_ok(id, game.ships@[id]));
        let known = match memory.get(&id) {
            Some(m) => *m,
            None => vstd::pervasive::unreached(),
        };
        let target = game.nearest_drop_pos(ship.pos);
        crew.push(Sailor { ship, goal_type: known.goal_type, turns_stuck: known.turns_stuck, target });
        i += 1;
    }
    proof {
        assert forall|a: int, b: int| 0 <= a < b < crew.len() implies crew[a].ship.ship_id
            != crew[b].ship.ship_id by {
            assert(movable@[a] != movable@[b]);
        }
    }
    crew
}

/// The places in the crew of the sailors that are not on their way home,
/// in their order.
pub fn select_miners(crew: &Vec<Sailor>) -> (slots: Vec<usize>)
    ensures
        forall|k: int| 0 <= k < slots.len() ==> (#[trigger] slots[k]) < crew.len()
            && crew[slots[k] as int].goal_type != GoalType::Deposit,
        forall|a: int, b: int| 0 <= a < b < slots.len() ==> slots[a] < slots[b],
        forall|i: int|
            0 <= i < crew.len() && (#[trigger] crew[i]).goal_type != GoalType::Deposit
                ==> slots@.contains(i as usize),
        slots.len() <= crew.len(),
{
    let mut slots: Vec<usize> = Vec::new();
    let mut i: usize = 0;
    while i < crew.len()
        invariant
            i <= crew.len(),
            slots.len() <= i,
            forall|k: int| 0 <= k < slots.len() ==> (#[trigger] slots[k]) < i
                && crew[slots[k] as int].goal_type != GoalType::Deposit,
            forall|a: int, b: int| 0 <= a < b < slots.len() ==> slots[a] < slots[b],
            forall|j: int|
                0 <= j < i && (#[trigger] crew[j]).goal_type != GoalType::Deposit
                    ==> slots@.contains(j as usize),
        decreases crew.len() - i,
    {
        let deposit = match crew[i].goal_type {
            GoalType::Deposit => true,
            _ => false,
        };
        if !deposit {
            let ghost before = slots@;
            slots.push(i);
            proof {
                assert forall|j: int|
                    0 <= j < i + 1 && (#[trigger] crew[j]).goal_type
                        != GoalType::Deposit implies slots@.contains(j as usize) by {
                    if j < i {
                        assert(before.contains(j as usize));
                        let k = choose|k: int| 0 <= k < before.len() && before[k] == j as usize;
                        assert(slots@[k] == j as usize);
                    } else {
                        assert(slots@[slots.len() - 1] == j as usize);
                    }
                }
            }
        }
        i += 1;
    }
    slots
}

/// The terms of the worth of sending a sailor to a goal, from where it
/// would go home to the deposit site nearest to the goal.
pub open spec fn pair_terms(game: Game, sailor: Sailor, goal: Goal) -> GoalTerms {
    let home = game.my_drop_pts[game.nearest_drop_pt_idx.at_pos(goal.pos) as int];
    GoalTerms {
        net_halite_x100: game.net_halite_x100(sailor.ship, goal.pos, sailor.goal_type, home) as i64,
        net_turns_x10: game.net_turns_x10(sailor.ship, goal.pos, home) as i64,
    }
}

/// The table of what it is worth to send each miner to each goal: one row
/// for each goal, in each row one value for each miner. The terms of every
/// pair are computed here; `weigh` turns them into the worth.
#[verifier::spinoff_prover]
pub fn build_weights<W: Fn(GoalTerms) -> i64>(
    game: &Game,
    crew: &Vec<Sailor>,
    slots: &Vec<usize>,
    goals: &Vec<Goal>,
    weigh: &W,
) -> (weights: Vec<Vec<i64>>)
    requires
        game.wf(),
        crew_ok(*game, crew@),
        forall|k: int| 0 <= k < slots.len() ==> (#[trigger] slots[k]) < crew.len(),
        forall|g: int| 0 <= g < goals.len() ==> game.contains((#[trigger] goals[g]).pos),
        forall|t: GoalTerms| #[trigger] weigh.requires((t,)),
    ensures
        table_ok(weights@, slots.len() as int, goals.len() as int),
        forall|g: int, m: int|
            0 <= g < goals.len() && 0 <= m < slots.len() ==> weigh.ensures(
                (pair_terms(*game, crew[slots[m] as int], goals[g]),),
                #[trigger] weights[g][m],
            ),
{
    let mut weights: Vec<Vec<i64>> = Vec::new();
    let mut g: usize = 0;
    while g < goals.len()
        invariant
            game.wf(),
            crew_ok(*game, crew@),
            forall|k: int| 0 <= k < slots.len() ==> (#[trigger] slots[k]) < crew.len(),
            forall|j: int| 0 <= j < goals.len() ==> game.contains((#[trigger] goals[j]).pos),
            forall|t: GoalTerms| #[trigger] weigh.requires((t,)),
            g <= goals.len(),
            weights.len() == g,
            forall|j: int| 0 <= j < g ==> (#[trigger] weights[j]).len() == slots.len(),
            forall|j: int, m: int|
                0 <= j < g && 0 <= m < slots.len() ==> weigh.ensures(
                    (pair_terms(*game, crew[slots[m] as int], goals[j]),),
                    #[trigger] weights[j][m],
                ),
        decreases goals.len() - g,
    {
        let cell_pos = goals[g].pos;
        assert(game.contains(goals[g as int].pos));
        let drop_pos = game.nearest_drop_pos(cell_pos);
        let mut row: Vec<i64> = Vec::new();
        let mut m: usize = 0;
        while m < slots.len()
            invariant
                game.wf(),
                crew_ok(*game, crew@),
                forall|k: int| 0 <= k < slots.len() ==> (#[trigger] slots[k]) < crew.len(),
                forall|t: GoalTerms| #[trigger] weigh.requires((t,)),
                g < goals.len(),
                cell_pos == goals[g as int].pos,
                game.contains(cell_pos),
                game.contains(drop_pos),
                drop_pos == game.my_drop_pts[game.nearest_drop_pt_idx.at_pos(cell_pos) as int],
                m <= slots.len(),
                row.len() == m,
                forall|k: int|
                    0 <= k < m ==> weigh.ensures(
                        (pair_terms(*game, crew[slots[k] as int], goals[g as int]),),
                        #[trigger] row[k],
                    ),
            decreases slots.len() - m,
        {
            let sailor = crew[slots[m]];
            assert(game.contains(crew[slots[m as int] as int].ship.pos));
            let terms = miner_goal_terms(game, &sailor.ship, cell_pos, sailor.goal_type, drop_pos);
            let value = weigh(terms);
            assert(terms == pair_terms(*game, crew[slots[m as int] as int], goals[g as int]));
            row.push(value);
            m += 1;
        }
        weights.push(row);
        g += 1;
    }
    weights
}

/// What a miner does once it has been given the goal `goal`: it mines if
/// it is on the goal already, else it is on its way there.
pub open spec fn assigned(sailor: Sailor, goal: Goal) -> Sailor {
    Sailor {
        target: goal.pos,
        goal_type: if sailor.ship.pos == goal.pos { GoalType::Mine } else { GoalType::TowardsMine },
        ..sailor
    }
}

/// The goals of the first `n` pairs that a miner has to sail to and that
/// are not deposit sites, in the order of the pairs.
pub open spec fn sailed_to(
    game: Game,
    crew: Seq<Sailor>,
    slots: Seq<usize>,
    goals: Seq<Goal>,
    pairs: Seq<(usize, usize)>,
    n: int,
) -> Seq<Point>
    decreases n,
{
    if n <= 0 {
        Seq::empty()
    } else {
        let rest = sailed_to(game, crew, slots, goals, pairs, n - 1);
        let cell = goals[pairs[n - 1].1 as int].pos;
        if crew[slots[pairs[n - 1].0 as int] as int].ship.pos != cell && !game.is_home(cell) {
            rest.push(cell)
        } else {
            rest
        }
    }
}

/// Gives every miner the goal that it was paired with. Lists the goals
/// that a miner has to sail to and that are not deposit sites, in the order
/// of the pairs.
#[verifier::spinoff_prover]
pub fn apply_pairs(
    crew: &mut Vec<Sailor>,
    game: &Game,
    slots: &Vec<usize>,
    goals: &Vec<Goal>,
    pairs: &Vec<(usize, usize)>,
) -> (picked: Vec<Point>)
    requires
        game.wf(),
        crew_ok(*game, old(crew)@),
        forall|k: int| 0 <= k < slots.len() ==> (#[trigger] slots[k]) < old(crew).len(),
        forall|a: int, b: int| 0 <= a < b < slots.len() ==> slots[a] < slots[b],
        forall|g: int| 0 <= g < goals.len() ==> game.contains((#[trigger] goals[g]).pos),
        forall|k: int|
            0 <= k < pairs.len() ==> (#[trigger] pairs[k]).0 < slots.len() && pairs[k].1
                < goals.len(),
        forall|a: int, b: int| 0 <= a < b < pairs.len() ==> pairs[a].0 != pairs[b].0,
    ensures
        final(crew).len() == old(crew).len(),
        crew_ok(*game, final(crew)@),
        forall|i: int| 0 <= i < final(crew).len() ==> (#[trigger] final(crew)[i]).ship == old(crew)[i].ship,
        forall|k: int|
            0 <= k < pairs.len() ==> final(crew)[slots[(#[trigger] pairs[k]).0 as int] as int]
                == assigned(old(crew)[slots[pairs[k].0 as int] as int], goals[pairs[k].1 as int]),
        forall|i: int|
            0 <= i < final(crew).len() && !(exists|k: int|
                0 <= k < pairs.len() && slots[(#[trigger] pairs[k]).0 as int] == i)
                ==> #[trigger] final(crew)[i] == old(crew)[i],
        picked@ == sailed_to(*game, old(crew)@, slots@, goals@, pairs@, pairs.len() as int),
        forall|j: int| 0 <= j < picked.len() ==> game.contains(#[trigger] picked[j]),
        forall|j: int|
            0 <= j < picked.len() ==> goal_cells(goals@, goals.len() as int).contains(
                #[trigger] picked[j],
            ),
{
    let ghost before = crew@;
    let mut picked: Vec<Point> = Vec::new();
    let mut k: usize = 0;
    while k < pairs.len()
        invariant
            game.wf(),
            crew_ok(*game, before),
            before.len() == crew.len(),
            forall|j: int| 0 <= j < slots.len() ==> (#[trigger] slots[j]) < crew.len(),
            forall|a: int, b: int| 0 <= a < b < slots.len() ==> slots[a] < slots[b],
            forall|g: int| 0 <= g < goals.len() ==> game.contains((#[trigger] goals[g]).pos),
            forall|j: int|
                0 <= j < pairs.len() ==> (#[trigger] pairs[j]).0 < slots.len() && pairs[j].1
                    < goals.len(),
            forall|a: int, b: int| 0 <= a < b < pairs.len() ==> pairs[a].0 != pairs[b].0,
            k <= pairs.len(),
            forall|i: int| 0 <= i < crew.len() ==> (#[trigger] crew[i]).ship == before[i].ship,
            forall|i: int| 0 <= i < crew.len() ==> game.contains((#[trigger] crew[i]).target),
            forall|j: int|
                0 <= j < k ==> crew[slots[(#[trigger] pairs[j]).0 as int] as int] == assigned(
                    before[slots[pairs[j].0 as int] as int],
                    goals[pairs[j].1 as int],
                ),
            forall|i: int|
                0 <= i < crew.len() && !(exists|j: int|
                    0 <= j < k && slots[(#[trigger] pairs[j]).0 as int] == i) ==> #[trigger] crew[i]
                    == before[i],
            picked@ == sailed_to(*game, before, slots@, goals@, pairs@, k as int),
            forall|j: int| 0 <= j < picked.len() ==> game.contains(#[trigger] picked[j]),
            forall|j: int|
                0 <= j < picked.len() ==> goal_cells(goals@, goals.len() as int).contains(
                    #[trigger] picked[j],
                ),
        decreases pairs.len() - k,
    {
        let (m, g) = pairs[k];
        assert(pairs[k as int].0 == m && pairs[k as int].1 == g);
        let slot = slots[m];
        let goal = goals[g];
        assert(game.contains(goals[g as int].pos));
        let sailor = crew[slot];
        let ghost mid = crew@;
        proof {
            assert(!(exists|j: int| 0 <= j < k && slots[(#[trigger] pairs[j]).0 as int] == slot)) by {
                if exists|j: int| 0 <= j < k && slots[(#[trigger] pairs[j]).0 as int] == slot {
                    let j = choose|j: int| 0 <= j < k && slots[(#[trigger] pairs[j]).0 as int] == slot;
                    assert(pairs[j].0 != pairs[k as int].0);
                    let a = pairs[j].0 as int;
                    let b = pairs[k as int].0 as int;
                    if a < b {
                        assert(slots[a] < slots[b]);
                    } else {
                        assert(slots[b] < slots[a]);
                    }
                }
            }
            assert(sailor == before[slot as int]);
        }
        let staying = sailor.ship.pos.x == goal.pos.x && sailor.ship.pos.y == goal.pos.y;
        crew.set(
            slot,
            Sailor {
                ship: sailor.ship,
                goal_type: if staying { GoalType::Mine } else { GoalType::TowardsMine },
                turns_stuck: sailor.turns_stuck,
                target: goal.pos,
            },
        );
        if !staying && !has_point(&game.my_drop_pts, goal.pos) {
            assert(goals@[g as int].pos == goal.pos);
            assert(goal_cells(goals@, goals.len() as int).contains(goal.pos));
            picked.push(goal.pos);
        }
        proof {
            assert forall|j: int| 0 <= j < k + 1 implies crew[slots[(
            #[trigger] pairs[j]).0 as int] as int] == assigned(
                before[slots[pairs[j].0 as int] as int],
                goals[pairs[j].1 as int],
            ) by {
                if j < k {
                    let a = pairs[j].0 as int;
                    let b = pairs[k as int].0 as int;
                    assert(a != b);
                    if a < b {
                        assert(slots[a] < slots[b]);
                    } else {
                        assert(slots[b] < slots[a]);
                    }
                    assert(crew[slots[a] as int] == mid[slots[a] as int]);
                }
            }
            assert forall|i: int|
                0 <= i < crew.len() && !(exists|j: int|
                    0 <= j < k + 1 && slots[(#[trigger] pairs[j]).0 as int] == i) implies #[trigger] crew[i]
                == before[i] by {
                assert(i != slot) by {
                    if i == slot {
                        assert(slots[pairs[k as int].0 as int] == i);
                    }
                }
                assert(crew[i] == mid[i]);
                assert(!(exists|j: int| 0 <= j < k && slots[(#[trigger] pairs[j]).0 as int] == i)) by {
                    if exists|j: int| 0 <= j < k && slots[(#[trigger] pairs[j]).0 as int] == i {
                        let j = choose|j: int| 0 <= j < k && slots[(#[trigger] pairs[j]).0 as int] == i;
                        assert(slots[pairs[j].0 as int] == i);
                    }
                }
            }
        }
        k += 1;
    }
    proof {
        assert forall|i: int| 0 <= i < crew.len() implies {
            &&& game.ships@.contains_key((#[trigger] crew[i]).ship.ship_id)
            &&& game.ships@[crew[i].ship.ship_id] == crew[i].ship
            &&& game.contains(crew[i].ship.pos)
            &&& game.contains(crew[i].target)
            &&& 0 <= crew[i].ship.halite <= MAX_CELL
        } by {
            assert(crew[i].ship == before[i].ship);
        }
        assert forall|i: int, j: int| 0 <= i < j < crew.len() implies crew[i].ship.ship_id
            != crew[j].ship.ship_id by {
            assert(crew[i].ship == before[i].ship);
            assert(crew[j].ship == before[j].ship);
        }
    }
    picked
}

/// For every sailor its entry in the queue for picking a move.
pub fn crew_entries(game: &Game, crew: &Vec<Sailor>) -> (entries: Vec<ShipPriority>)
    requires
        game.wf(),
        crew_ok(*game, crew@),
    ensures
        entries.len() == crew.len(),
        forall|i: int|
            0 <= i < crew.len() ==> (#[trigger] entries[i]).id == crew[i].ship.ship_id
                && entries[i].w == move_priority(
                *game,
                crew[i].ship,
                crew[i].goal_type,
                crew[i].target,
            ),
{
    let mut entries: Vec<ShipPriority> = Vec::new();
    let mut i: usize = 0;
    while i < crew.len()
        invariant
            game.wf(),
            crew_ok(*game, crew@),
            i <= crew.len(),
            entries.len() == i,
            forall|j: int|
                0 <= j < i ==> (#[trigger] entries[j]).id == crew[j].ship.ship_id && entries[j].w
                    == move_priority(*game, crew[j].ship, crew[j].goal_type, crew[j].target),
        decreases crew.len() - i,
    {
        let sailor = crew[i];
        assert(game.contains(crew[i as int].ship.pos));
        let w = ship_priority(game, &sailor.ship, sailor.goal_type, sailor.target);
        entries.push(ShipPriority { id: sailor.ship.ship_id, w });
        i += 1;
    }
    entries
}

/// The terms of the threat to a sailor's move onto a cell for which the
/// given chance of a hostile ship is forecast.
pub open spec fn threat_terms(game: Game, sailor: Sailor, forecast: usize) -> ThreatTerms {
    ThreatTerms {
        forecast,
        dist_to_dropoff: game.nearest_drop_pt_dist.at_pos(sailor.ship.pos),
        turn_number: game.turn_number,
        max_turns: game.constants.max_turns,
        cargo: sailor.ship.halite,
        turns_stuck: sailor.turns_stuck,
    }
}

/// A threat is counted for no less than nothing and no more than the
/// greatest cost.
pub open spec fn clamped(raw: i64) -> i64 {
    if raw < 0 {
        0
    } else if raw > SCORE_CAP {
        SCORE_CAP
    } else {
        raw
    }
}

/// The candidate is the `m`-th move of the sailor: it ends on the cell one
/// step in the `m`-th direction, costs what a cheapest way from the target
/// to that cell costs, less four times what the cell holds if the sailor is
/// on its target, and is threatened as `threat` says if four play and a
/// hostile ship is forecast on the cell.
pub open spec fn candidate_ok<T: Fn(ThreatTerms) -> i64>(
    game: Game,
    sailor: Sailor,
    forecast: GMap<usize>,
    threat: T,
    m: int,
    c: Candidate,
) -> bool {
    &&& c.pos == game.around(sailor.ship.pos)[m]
    &&& c.dir == Direction::all()[m]
    &&& game.cheapest(
        sailor.target,
        c.pos,
        STEP_COST as int,
        c.base + (if sailor.ship.pos == sailor.target { 4 * game.halite(c.pos) } else { 0 }),
    )
    &&& if game.num_players == 4 && forecast.at_pos(c.pos) > 0 {
        exists|raw: i64|
            threat.ensures((threat_terms(game, sailor, forecast.at_pos(c.pos)),), raw) && c.threat
                == #[trigger] clamped(raw)
    } else {
        c.threat == 0
    }
}

/// The sailors in the order in which they pick their moves, each with its
/// five moves.
#[verifier::spinoff_prover]
pub fn build_movers<T: Fn(ThreatTerms) -> i64>(
    game: &Game,
    crew: &Vec<Sailor>,
    order: &Vec<usize>,
    forecast: &GMap<usize>,
    threat: &T,
) -> (movers: Vec<Mover>)
    requires
        game.wf(),
        crew_ok(*game, crew@),
        forecast.wf(game.w(), game.h()),
        forall|u: int| 0 <= u < order.len() ==> (#[trigger] order[u]) < crew.len(),
        forall|t: ThreatTerms| #[trigger] threat.requires((t,)),
    ensures
        movers.len() == order.len(),
        forall|u: int| 0 <= u < movers.len() ==> (#[trigger] movers[u]).wf(game.w(), game.h()),
        forall|u: int|
            0 <= u < movers.len() ==> (#[trigger] movers[u]).id == crew[order[u] as int].ship.ship_id,
        forall|u: int, m: int|
            0 <= u < movers.len() && 0 <= m < 5 ==> candidate_ok(
                *game,
                crew[order[u] as int],
                *forecast,
                *threat,
                m,
                #[trigger] movers[u].candidates[m],
            ),
{
    let mut movers: Vec<Mover> = Vec::new();
    let mut u: usize = 0;
    while u < order.len()
        invariant
            game.wf(),
            crew_ok(*game, crew@),
            forecast.wf(game.w(), game.h()),
            forall|v: int| 0 <= v < order.len() ==> (#[trigger] order[v]) < crew.len(),
            forall|t: ThreatTerms| #[trigger] threat.requires((t,)),
            u <= order.len(),
            movers.len() == u,
            forall|v: int| 0 <= v < u ==> (#[trigger] movers[v]).wf(game.w(), game.h()),
            forall|v: int|
                0 <= v < u ==> (#[trigger] movers[v]).id == crew[order[v] as int].ship.ship_id,
            forall|v: int, m: int|
                0 <= v < u && 0 <= m < 5 ==> candidate_ok(
                    *game,
                    crew[order[v] as int],
                    *forecast,
                    *threat,
                    m,
                    #[trigger] movers[v].candidates[m],
                ),
        decreases order.len() - u,
    {
        let sailor = crew[order[u]];
        assert(game.contains(crew[order[u as int] as int].ship.pos));
        let nav_scores = game.backwards_a_star_scores(sailor.ship.pos, sailor.target, STEP_COST);
        let on_target = sailor.ship.pos.x == sailor.target.x && sailor.ship.pos.y == sailor.target.y;
        let dist_to_dropoff = *game.nearest_drop_pt_dist.get(sailor.ship.pos);
        proof {
            game.lemma_cost_cap(STEP_COST as int);
        }
        let mut candidates: Vec<Candidate> = Vec::new();
        let mut m: usize = 0;
        while m < 5
            invariant
                game.wf(),
                forecast.wf(game.w(), game.h()),
                forall|t: ThreatTerms| #[trigger] threat.requires((t,)),
                u < order.len(),
                sailor == crew[order[u as int] as int],
                on_target == (sailor.ship.pos == sailor.target),
                dist_to_dropoff == game.nearest_drop_pt_dist.at_pos(sailor.ship.pos),
                0 <= game.cost_cap(STEP_COST as int) <= 0x2_0000_0000_0000,
                nav_scores.len() == 5,
                forall|j: int|
                    0 <= j < 5 ==> {
                        &&& (#[trigger] nav_scores[j]).0 == game.around(sailor.ship.pos)[j]
                        &&& nav_scores[j].1 == Direction::all()[j]
                        &&& game.cheapest(
                            sailor.target,
                            nav_scores[j].0,
                            STEP_COST as int,
                            nav_scores[j].2 as int,
                        )
                        &&& 0 <= nav_scores[j].2 <= game.cost_cap(STEP_COST as int)
                        &&& game.contains(nav_scores[j].0)
                    },
                m <= 5,
                candidates.len() == m,
                forall|j: int|
                    0 <= j < m ==> {
                        &&& candidate_ok(*game, sailor, *forecast, *threat, j, #[trigger] candidates[j])
                        &&& game.contains(candidates[j].pos)
                        &&& -SCORE_CAP <= candidates[j].base <= SCORE_CAP
                        &&& 0 <= candidates[j].threat <= SCORE_CAP
                    },
            decreases 5 - m,
        {
            let (pos, dir, cost) = nav_scores[m];
            assert(nav_scores[m as int].0 == pos);
            let base: i64 = if on_target {
                cost - 4 * (game.halite_at(pos) as i64)
            } else {
                cost
            };
            let chance = *forecast.get(pos);
            let danger: i64 = if game.num_players == 4 && chance > 0 {
                let raw = threat(
                    ThreatTerms {
                        forecast: chance,
                        dist_to_dropoff,
                        turn_number: game.turn_number,
                        max_turns: game.constants.max_turns,
                        cargo: sailor.ship.halite,
                        turns_stuck: sailor.turns_stuck,
                    },
                );
                let kept: i64 = if raw < 0 {
                    0
                } else if raw > SCORE_CAP {
                    SCORE_CAP
                } else {
                    raw
                };
                assert(kept == clamped(raw));
                kept
            } else {
                0
            };
            let c = Candidate { pos, dir, base, threat: danger };
            assert(candidate_ok(*game, sailor, *forecast, *threat, m as int, c));
            candidates.push(c);
            m += 1;
        }
        movers.push(Mover { id: sailor.ship.ship_id, candidates });
        u += 1;
    }
    movers
}

/// The cells on which the ships with the given ids stand.
pub fn mark_cells(game: &Game, ids: &Vec<usize>) -> (marked: GMap<bool>)
    requires
        game.wf(),
        forall|i: int| 0 <= i < ids.len() ==> game.ships@.contains_key(#[trigger] ids[i]),
    ensures
        marked.wf(game.w(), game.h()),
        forall|p: Point|
            game.contains(p) ==> (#[trigger] marked.at_pos(p) <==> exists|i: int|
                0 <= i < ids.len() && game.ships@[#[trigger] ids[i]].pos == p),
{
    let mut marked: GMap<bool> = GMap::filled(game.width, game.height, false);
    proof {
        assert forall|p: Point| game.contains(p) implies !#[trigger] marked.at_pos(p) by {
            assert(!marked.at(p.x as int, p.y as int));
        }
    }
    let mut i: usize = 0;
    while i < ids.len()
        invariant
            game.wf(),
            forall|j: int| 0 <= j < ids.len() ==> game.ships@.contains_key(#[trigger] ids[j]),
            marked.wf(game.w(), game.h()),
            i <= ids.len(),
            forall|p: Point|
                game.contains(p) ==> (#[trigger] marked.at_pos(p) <==> exists|j: int|
                    0 <= j < i && game.ships@[#[trigger] ids[j]].pos == p),
        decreases ids.len() - i,
    {
        let ship = game.ship(ids[i]);
        assert(game.ship_ok(ids[i as int], game.ships@[ids[i as int]]));
        let ghost before = marked;
        marked.set(ship.pos, true);
        proof {
            assert forall|p: Point| game.contains(p) implies (#[trigger] marked.at_pos(p)
                <==> exists|j: int| 0 <= j < i + 1 && game.ships@[#[trigger] ids[j]].pos == p) by {
                assert(before.has(p));
                if p == ship.pos {
                    assert(game.ships@[ids[i as int]].pos == p);
                } else {
                    if before.at_pos(p) {
                        let j = choose|j: int| 0 <= j < i && game.ships@[#[trigger] ids[j]].pos == p;
                        assert(game.ships@[ids[j]].pos == p);
                    }
                    if exists|j: int| 0 <= j < i + 1 && game.ships@[#[trigger] ids[j]].pos == p {
                        let j = choose|j: int|
                            0 <= j < i + 1 && game.ships@[#[trigger] ids[j]].pos == p;
                        assert(j < i);
                    }
                }
            }
        }
        i += 1;
    }
    marked
}

/// The cells on which own ships may meet: the own deposit sites while the
/// fleet is cashing out, else none.
pub fn shared_cells(game: &Game, endgame: bool) -> (shared: GMap<bool>)
    requires
        game.wf(),
    ensures
        shared.wf(game.w(), game.h()),
        forall|p: Point|
            game.contains(p) ==> (#[trigger] shared.at_pos(p) <==> endgame && game.is_home(p)),
{
    let mut shared: GMap<bool> = GMap::filled(game.width, game.height, false);
    proof {
        assert forall|p: Point| game.contains(p) implies !#[trigger] shared.at_pos(p) by {
            assert(!shared.at(p.x as int, p.y as int));
        }
    }
    if endgame {
        let mut i: usize = 0;
        while i < game.my_drop_pts.len()
            invariant
                game.wf(),
                shared.wf(game.w(), game.h()),
                i <= game.my_drop_pts.len(),
                forall|p: Point|
                    game.contains(p) ==> (#[trigger] shared.at_pos(p) <==> exists|j: int|
                        0 <= j < i && game.my_drop_pts[j] == p),
            decreases game.my_drop_pts.len() - i,
        {
            let site = game.my_drop_pts[i];
            assert(game.contains(game.my_drop_pts@[i as int]));
            let ghost before = shared;
            shared.set(site, true);
            proof {
                assert forall|p: Point| game.contains(p) implies (#[trigger] shared.at_pos(p)
                    <==> exists|j: int| 0 <= j < i + 1 && game.my_drop_pts[j] == p) by {
                    assert(before.has(p));
                    if p == site {
                        assert(game.my_drop_pts[i as int] == p);
                    } else {
                        if before.at_pos(p) {
                            let j = choose|j: int| 0 <= j < i && game.my_drop_pts[j] == p;
                            assert(game.my_drop_pts[j] == p);
                        }
                        if exists|j: int| 0 <= j < i + 1 && game.my_drop_pts[j] == p {
                            let j = choose|j: int| 0 <= j < i + 1 && game.my_drop_pts[j] == p;
                            assert(j < i);
                        }
                    }
                }
            }
            i += 1;
        }
        proof {
            assert forall|p: Point| game.contains(p) implies (#[trigger] shared.at_pos(p)
                <==> game.is_home(p)) by {
                if shared.at_pos(p) {
                    let j = choose|j: int| 0 <= j < game.my_drop_pts.len() && game.my_drop_pts[j] == p;
                    assert(game.my_drop_pts@[j] == p);
                }
                if game.is_home(p) {
                    let j = choose|j: int|
                        0 <= j < game.my_drop_pts@.len() && game.my_drop_pts@[j] == p;
                    assert(game.my_drop_pts[j] == p);
                }
            }
        }
    }
    shared
}

/// The commands of a turn: the ships that cannot move stand still, the
/// ship `builder` builds a deposit site, and every mover that is committed
/// to a move makes it.
#[verifier::spinoff_prover]
pub fn issue_commands(
    immovable: &Vec<usize>,
    builder: Option<usize>,
    movers: &Vec<Mover>,
    board: &Board,
) -> (commands: HashMap<usize, ShipCommand>)
    requires
        board.commands.len() == movers.len(),
        forall|u: int, v: int| 0 <= u < v < movers.len() ==> movers[u].id != movers[v].id,
        forall|i: int, u: int|
            0 <= i < immovable.len() && 0 <= u < movers.len() ==> (#[trigger] immovable[i])
                != (#[trigger] movers[u]).id,
        forall|i: int| 0 <= i < immovable.len() ==> builder != Some(#[trigger] immovable[i]),
        forall|u: int| 0 <= u < movers.len() ==> builder != Some((#[trigger] movers[u]).id),
    ensures
        forall|id: usize| #[trigger]
            commands@.contains_key(id) ==> (immovable@.contains(id) || builder == Some(id)
                || exists|u: int|
                0 <= u < movers.len() && (#[trigger] movers[u]).id == id && board.commands[u].is_some()),
        forall|u: int|
            0 <= u < movers.len() ==> (commands@.contains_key((#[trigger] movers[u]).id)
                <==> board.commands[u].is_some()),
        forall|u: int|
            0 <= u < movers.len() && board.commands[u].is_some() ==> commands@[(
            #[trigger] movers[u]).id] == ShipCommand::MoveShip(board.commands[u].unwrap()),
        forall|i: int|
            0 <= i < immovable.len() ==> commands@.contains_key(#[trigger] immovable[i])
                && commands@[immovable[i]] == ShipCommand::MoveShip(Direction::Still),
        builder matches Some(b) ==> commands@.contains_key(b) && commands@[b]
            == ShipCommand::MakeDropoff(),
{
    broadcast use vstd::std_specs::hash::group_hash_axioms;

    let mut commands: HashMap<usize, ShipCommand> = HashMap::new();
    let mut i: usize = 0;
    while i < immovable.len()
        invariant
            i <= immovable.len(),
            forall|id: usize| #[trigger]
                commands@.contains_key(id) <==> exists|j: int| 0 <= j < i && immovable[j] == id,
            forall|j: int|
                0 <= j < i ==> commands@[#[trigger] immovable[j]] == ShipCommand::MoveShip(
                    Direction::Still,
                ),
        decreases immovable.len() - i,
    {
        let ghost prior = commands@;
        commands.insert(immovable[i], ShipCommand::MoveShip(Direction::Still));
        proof {
            assert forall|id: usize| #[trigger] commands@.contains_key(id) <==> exists|j: int|
                0 <= j < i + 1 && immovable[j] == id by {
                if id == immovable[i as int] {
                } else {
                    if prior.contains_key(id) {
                        let j = choose|j: int| 0 <= j < i && immovable[j] == id;
                        assert(immovable[j] == id);
                    }
                    if exists|j: int| 0 <= j < i + 1 && immovable[j] == id {
                        let j = choose|j: int| 0 <= j < i + 1 && immovable[j] == id;
                        assert(j < i);
                    }
                }
            }
        }
        i += 1;
    }
    let ghost still = commands@;
    proof {
        assert forall|id: usize| #[trigger] still.contains_key(id) <==> immovable@.contains(id) by {
            if still.contains_key(id) {
                let j = choose|j: int| 0 <= j < immovable.len() && immovable[j] == id;
                assert(immovable@[j] == id);
            }
            if immovable@.contains(id) {
                let j = choose|j: int| 0 <= j < immovable@.len() && immovable@[j] == id;
                assert(immovable[j] == id);
            }
        }
    }
    let mut u: usize = 0;
    while u < movers.len()
        invariant
            board.commands.len() == movers.len(),
            u <= movers.len(),
            forall|x: int, v: int| 0 <= x < v < movers.len() ==> movers[x].id != movers[v].id,
            forall|i: int, x: int|
                0 <= i < immovable.len() && 0 <= x < movers.len() ==> (#[trigger] immovable[i])
                    != (#[trigger] movers[x]).id,
            forall|id: usize| #[trigger] still.contains_key(id) <==> immovable@.contains(id),
            forall|j: int|
                0 <= j < immovable.len() ==> still[#[trigger] immovable[j]] == ShipCommand::MoveShip(
                    Direction::Still,
                ),
            forall|id: usize| #[trigger]
                commands@.contains_key(id) <==> (still.contains_key(id) || exists|v: int|
                    0 <= v < u && (#[trigger] movers[v]).id == id && board.commands[v].is_some()),
            forall|id: usize|
                still.contains_key(id) && (forall|v: int|
                    0 <= v < u ==> (#[trigger] movers[v]).id != id) ==> #[trigger] commands@[id]
                    == still[id],
            forall|v: int|
                0 <= v < u && board.commands[v].is_some() && (forall|x: int|
                    v < x < u ==> (#[trigger] movers[x]).id != movers[v].id) ==> commands@[(
                #[trigger] movers[v]).id] == ShipCommand::MoveShip(board.commands[v].unwrap()),
        decreases movers.len() - u,
    {
        let ghost prior = commands@;
        let id = movers[u].id;
        match board.commands[u] {
            Some(d) => {
                commands.insert(id, ShipCommand::MoveShip(d));
                proof {
                    assert forall|x: usize| #[trigger] commands@.contains_key(x) <==> (
                    still.contains_key(x) || exists|v: int|
                        0 <= v < u + 1 && (#[trigger] movers[v]).id == x && board.commands[v].is_some()) by {
                        if x == id {
                            assert(movers[u as int].id == x && board.commands[u as int].is_some());
                        } else {
                            if exists|v: int|
                                0 <= v < u && (#[trigger] movers[v]).id == x
                                    && board.commands[v].is_some() {
                                let v = choose|v: int|
                                    0 <= v < u && (#[trigger] movers[v]).id == x
                                        && board.commands[v].is_some();
                                assert(movers[v].id == x);
                            }
                            if exists|v: int|
                                0 <= v < u + 1 && (#[trigger] movers[v]).id == x
                                    && board.commands[v].is_some() {
                                let v = choose|v: int|
                                    0 <= v < u + 1 && (#[trigger] movers[v]).id == x
                                        && board.commands[v].is_some();
                                assert(v < u);
                            }
                        }
                    }
                    assert forall|x: usize|
                        still.contains_key(x) && (forall|v: int|
                            0 <= v < u + 1 ==> (#[trigger] movers[v]).id != x) implies #[trigger] commands@[x]
                        == still[x] by {
                        assert(movers[u as int].id != x);
                        assert(forall|v: int| 0 <= v < u ==> (#[trigger] movers[v]).id != x);
                    }
                    assert forall|v: int|
                        0 <= v < u + 1 && board.commands[v].is_some() && (forall|x: int|
                            v < x < u + 1 ==> (#[trigger] movers[x]).id != movers[v].id) implies commands@[(
                    #[trigger] movers[v]).id] == ShipCommand::MoveShip(
                        board.commands[v].unwrap(),
                    ) by {
                        if v < u {
                            assert(movers[u as int].id != movers[v].id);
                            assert(forall|x: int| v < x < u ==> (#[trigger] movers[x]).id != movers[v].id);
                        }
                    }
                }
            },
            None => {
                proof {
                    assert forall|x: usize| #[trigger] commands@.contains_key(x) <==> (
                    still.contains_key(x) || exists|v: int|
                        0 <= v < u + 1 && (#[trigger] movers[v]).id == x && board.commands[v].is_some()) by {
                        if exists|v: int|
                            0 <= v < u && (#[trigger] movers[v]).id == x && board.commands[v].is_some() {
                            let v = choose|v: int|
                                0 <= v < u && (#[trigger] movers[v]).id == x
                                    && board.commands[v].is_some();
                            assert(movers[v].id == x);
                        }
                        if exists|v: int|
                            0 <= v < u + 1 && (#[trigger] movers[v]).id == x
                                && board.commands[v].is_some() {
                            let v = choose|v: int|
                                0 <= v < u + 1 && (#[trigger] movers[v]).id == x
                                    && board.commands[v].is_some();
                            assert(v < u);
                        }
                    }
                    assert forall|x: usize|
                        still.contains_key(x) && (forall|v: int|
                            0 <= v < u + 1 ==> (#[trigger] movers[v]).id != x) implies #[trigger] commands@[x]
                        == still[x] by {
                        assert(forall|v: int| 0 <= v < u ==> (#[trigger] movers[v]).id != x);
                    }
                    assert forall|v: int|
                        0 <= v < u + 1 && board.commands[v].is_some() && (forall|x: int|
                            v < x < u + 1 ==> (#[trigger] movers[x]).id != movers[v].id) implies commands@[(
                    #[trigger] movers[v]).id] == ShipCommand::MoveShip(
                        board.commands[v].unwrap(),
                    ) by {
                        assert(v < u);
                        assert(forall|x: int| v < x < u ==> (#[trigger] movers[x]).id != movers[v].id);
                    }
                }
            },
        }
        u += 1;
    }
    let ghost moved = commands@;
    match builder {
        Some(b) => {
            commands.insert(b, ShipCommand::MakeDropoff());
        },
        None => {},
    }
    proof {
        assert forall|v: int| 0 <= v < movers.len() implies (commands@.contains_key(
            (#[trigger] movers[v]).id,
        ) <==> board.commands[v].is_some()) && (board.commands[v].is_some() ==> commands@[movers[v].id]
            == ShipCommand::MoveShip(board.commands[v].unwrap())) by {
            let id = movers[v].id;
            assert(builder != Some(id));
            assert(moved.contains_key(id) == commands@.contains_key(id));
            assert(!still.contains_key(id)) by {
                if immovable@.contains(id) {
                    let i = choose|i: int| 0 <= i < immovable@.len() && immovable@[i] == id;
                    assert(immovable[i] != movers[v].id);
                }
            }
            if moved.contains_key(id) {
                let x = choose|x: int|
                    0 <= x < movers.len() && (#[trigger] movers[x]).id == id && board.commands[x].is_some();
                assert(x == v);
            }
            if board.commands[v].is_some() {
                assert(movers[v].id == id);
                assert(forall|x: int| v < x < movers.len() ==> (#[trigger] movers[x]).id != movers[v].id);
            }
        }
        assert forall|i: int| 0 <= i < immovable.len() implies commands@.contains_key(
            #[trigger] immovable[i],
        ) && commands@[immovable[i]] == ShipCommand::MoveShip(Direction::Still) by {
            let id = immovable[i];
            assert(immovable@[i] == id);
            assert(still.contains_key(id));
            assert(builder != Some(id));
            assert(forall|v: int| 0 <= v < movers.len() ==> (#[trigger] movers[v]).id != id);
            assert(moved[id] == still[id]);
        }
        assert forall|id: usize| #[trigger] commands@.contains_key(id) implies (immovable@.contains(id)
            || builder == Some(id) || exists|u: int|
            0 <= u < movers.len() && (#[trigger] movers[u]).id == id && board.commands[u].is_some()) by {
            if builder != Some(id) {
                assert(moved.contains_key(id));
            }
        }
    }
    commands
}

impl Game {
    /// Whether resources are to be held back for a deposit site: there is
    /// a candidate, the fleet has more than fifteen ships, and the match has
    /// more than one and a half times the grid's side in turns to go.
    pub open spec fn worth_saving(&self, cands: Seq<DropoffCandidate>) -> bool {
        cands.len() > 0 && self.my_ships().len() > 15 && self.turn_number + self.width * 3 / 2
            < self.constants.max_turns
    }
}

/// What the planner keeps from turn to turn.
pub struct Logic {
    /// What is remembered of every own ship, by its id.
    pub memory: HashMap<usize, ShipMemory>,
    /// Whether the fleet is cashing out: all ships go home and may meet there.
    pub endgame: bool,
    /// Whether resources are held back for a deposit site.
    pub saving_for_dropoff: bool,
    pub dropoff_candidates: Vec<DropoffCandidate>,
}

/// What a turn's planning comes to.
pub struct TurnPlan {
    /// Whether a new ship is to be built.
    pub spawn: bool,
    /// The command of every ship that has one, by the ship's id.
    pub commands: HashMap<usize, ShipCommand>,
    /// The ships that can move and for which no move could be found. They
    /// have no command and so hold their position.
    pub failed: Vec<usize>,
    /// The ships that can move, in the order in which they picked their
    /// moves, each with the cell it is bound for.
    pub targets: Vec<(usize, Point)>,
    /// The ship that is told to build a deposit site, if any.
    pub builder: Option<usize>,
}

impl Logic {
    /// Every candidate site lies on the grid.
    pub open spec fn wf(&self, game: Game) -> bool {
        forall|i: int|
            0 <= i < self.dropoff_candidates.len() ==> game.contains(
                (#[trigger] self.dropoff_candidates[i]).center,
            )
    }

    /// A planner that has seen nothing yet.
    pub fn new() -> (logic: Logic)
        ensures
            logic.memory@ == Map::<usize, ShipMemory>::empty(),
            !logic.endgame,
            !logic.saving_for_dropoff,
            logic.dropoff_candidates@ == Seq::<DropoffCandidate>::empty(),
    {
        Logic {
            memory: HashMap::new(),
            endgame: false,
            saving_for_dropoff: false,
            dropoff_candidates: Vec::new(),
        }
    }

    /// Looks among the goals that miners were sent to for clusters dense
    /// enough to serve a new deposit site, and adds the centre of each such
    /// cluster to the candidates.
    ///
    /// Goals no more than two steps apart belong to one cluster, and so do
    /// goals joined by a chain of such goals. A cluster counts from three
    /// goals on. Its centre is the goal from which the others are nearest in
    /// sum; the candidate's reach grows with the cluster's spread, up to 5.
    /// A centre becomes a candidate if it is none yet and a site there would pay.
    pub fn add_dropoff_candidates(&mut self, game: &Game, v_goals: Vec<Point>, dropoff_spacing: usize)
        requires
            game.wf(),
            old(self).wf(*game),
            forall|i: int| 0 <= i < v_goals.len() ==> game.contains(#[trigger] v_goals[i]),
        ensures
            final(self).wf(*game),
            final(self).memory == old(self).memory,
            final(self).endgame == old(self).endgame,
            final(self).saving_for_dropoff == old(self).saving_for_dropoff,
            exists|added: Seq<DropoffCandidate>, leads: Seq<int>|
                {
                    &&& #[trigger] game.sites_found(
                        firsts(v_goals@),
                        dropoff_spacing as int,
                        old(self).dropoff_candidates@,
                        added,
                        leads,
                    )
                    &&& final(self).dropoff_candidates@ == old(self).dropoff_candidates@ + added
                },
    {
        let ghost before = self.dropoff_candidates@;
        let mut added = new_sites(game, &v_goals, &self.dropoff_candidates, dropoff_spacing);
        let ghost found = added@;
        self.dropoff_candidates.append(&mut added);
        proof {
            assert(self.dropoff_candidates@ == before + found);
            assert forall|i: int| 0 <= i < self.dropoff_candidates.len() implies game.contains(
                (#[trigger] self.dropoff_candidates[i]).center,
            ) by {
                if i >= before.len() {
                    assert(self.dropoff_candidates[i] == found[i - before.len()]);
                } else {
                    assert(self.dropoff_candidates[i] == before[i]);
                }
            }
        }
    }
}

/// The cell on which the ship `id` ends its turn if it moves in direction `d`.
pub open spec fn lands(game: Game, id: usize, d: Direction) -> Point {
    game.stepped(game.ships@[id].pos, d)
}

/// No two ships are sent to one cell, except to a deposit site while the
/// fleet is cashing out.
pub open spec fn moves_apart(game: Game, endgame: bool, commands: Map<usize, ShipCommand>) -> bool {
    forall|a: usize, b: usize, da: Direction, db: Direction|
        a != b && commands.contains_key(a) && commands.contains_key(b) && commands[a]
            == ShipCommand::MoveShip(da) && commands[b] == ShipCommand::MoveShip(db)
            && #[trigger] lands(game, a, da) == #[trigger] lands(game, b, db) ==> endgame
            && game.is_home(lands(game, a, da))
}

/// A ship is sent to the cell `p`, and `p` is not a cell on which the
/// fleet's ships may meet.
pub open spec fn cell_taken(
    game: Game,
    endgame: bool,
    commands: Map<usize, ShipCommand>,
    p: Point,
) -> bool {
    &&& !(endgame && game.is_home(p))
    &&& exists|id: usize, d: Direction|
        commands.contains_key(id) && commands[id] == ShipCommand::MoveShip(d) && #[trigger] lands(
            game,
            id,
            d,
        ) == p
}

/// The movers are ships of the snapshot, each listed once, and the cells
/// of their moves are the cells around them.
pub open spec fn movers_ok(game: Game, movers: Seq<Mover>) -> bool {
    &&& forall|u: int| 0 <= u < movers.len() ==> (#[trigger] movers[u]).wf(game.w(), game.h())
    &&& forall|u: int| 0 <= u < movers.len() ==> game.ships@.contains_key((#[trigger] movers[u]).id)
    &&& forall|u: int, v: int| 0 <= u < v < movers.len() ==> movers[u].id != movers[v].id
    &&& forall|u: int, m: int|
        0 <= u < movers.len() && 0 <= m < 5 ==> (#[trigger] movers[u].candidates[m]).pos
            == game.around(game.ships@[movers[u].id].pos)[m]
}

/// The commands issued from a safe board send no two ships to one cell,
/// except where ships may meet.
pub proof fn lemma_moves_apart(
    game: Game,
    endgame: bool,
    immovable: Seq<usize>,
    builder: Option<usize>,
    movers: Seq<Mover>,
    board: Board,
    commands: Map<usize, ShipCommand>,
)
    requires
        game.wf(),
        movers_ok(game, movers),
        forall|i: int| 0 <= i < immovable.len() ==> game.ships@.contains_key(#[trigger] immovable[i]),
        board.wf(game.w(), game.h()),
        board.safe(game.w(), game.h(), movers),
        board.commands.len() == movers.len(),
        forall|p: Point|
            game.contains(p) ==> (#[trigger] board.immovable.at_pos(p) <==> exists|i: int|
                0 <= i < immovable.len() && game.ships@[#[trigger] immovable[i]].pos == p),
        forall|p: Point|
            game.contains(p) ==> (#[trigger] board.shared.at_pos(p) <==> endgame && game.is_home(p)),
        forall|id: usize| #[trigger]
            commands.contains_key(id) ==> (immovable.contains(id) || builder == Some(id)
                || exists|u: int|
                0 <= u < movers.len() && (#[trigger] movers[u]).id == id && board.commands[u].is_some()),
        forall|u: int|
            0 <= u < movers.len() && board.commands[u].is_some() ==> commands[(
            #[trigger] movers[u]).id] == ShipCommand::MoveShip(board.commands[u].unwrap()),
        forall|i: int|
            0 <= i < immovable.len() ==> commands.contains_key(#[trigger] immovable[i])
                && commands[immovable[i]] == ShipCommand::MoveShip(Direction::Still),
        builder matches Some(b) ==> commands.contains_key(b) && commands[b]
            == ShipCommand::MakeDropoff(),
    ensures
        moves_apart(game, endgame, commands),
{
    let w = game.w();
    let h = game.h();
    assert forall|a: usize, b: usize, da: Direction, db: Direction|
        a != b && commands.contains_key(a) && commands.contains_key(b) && commands[a]
            == ShipCommand::MoveShip(da) && commands[b] == ShipCommand::MoveShip(db)
            && #[trigger] lands(game, a, da) == #[trigger] lands(game, b, db) implies endgame
        && game.is_home(lands(game, a, da)) by {
        let p = lands(game, a, da);
        let ua = lemma_command_source(game, immovable, builder, movers, board, commands, a, da);
        let ub = lemma_command_source(game, immovable, builder, movers, board, commands, b, db);
        assert(game.contains(p));
        if ua < 0 && ub < 0 {
            assert(game.ship_ok(a, game.ships@[a]));
            assert(game.ship_ok(b, game.ships@[b]));
            assert(game.ship_map.at_pos(game.ships@[a].pos) == Some(a));
            assert(game.ship_map.at_pos(game.ships@[b].pos) == Some(b));
            assert(false);
        } else if ua < 0 {
            assert(board.immovable.at_pos(p));
            committed_moves_are_apart(w, h, movers, board, ub, ub);
            assert(board.shared.at_pos(p));
        } else if ub < 0 {
            assert(board.immovable.at_pos(p));
            committed_moves_are_apart(w, h, movers, board, ua, ua);
            assert(board.shared.at_pos(p));
        } else {
            committed_moves_are_apart(w, h, movers, board, ua, ub);
            assert(board.shared.at_pos(p));
        }
    }
}

/// The forbidden cells of a board that tracks its commands are the cells
/// that ships are sent to.
pub proof fn lemma_forbidden_meaning(
    game: Game,
    endgame: bool,
    immovable: Seq<usize>,
    builder: Option<usize>,
    movers: Seq<Mover>,
    board: Board,
    commands: Map<usize, ShipCommand>,
    p: Point,
)
    requires
        game.wf(),
        movers_ok(game, movers),
        game.contains(p),
        forall|i: int| 0 <= i < immovable.len() ==> game.ships@.contains_key(#[trigger] immovable[i]),
        board.wf(game.w(), game.h()),
        board.tracks(game.w(), game.h(), movers, movers.len() as int),
        board.commands.len() == movers.len(),
        forall|q: Point|
            game.contains(q) ==> (#[trigger] board.immovable.at_pos(q) <==> exists|i: int|
                0 <= i < immovable.len() && game.ships@[#[trigger] immovable[i]].pos == q),
        forall|q: Point|
            game.contains(q) ==> (#[trigger] board.shared.at_pos(q) <==> endgame && game.is_home(q)),
        forall|id: usize| #[trigger]
            commands.contains_key(id) ==> (immovable.contains(id) || builder == Some(id)
                || exists|u: int|
                0 <= u < movers.len() && (#[trigger] movers[u]).id == id && board.commands[u].is_some()),
        forall|u: int|
            0 <= u < movers.len() ==> (commands.contains_key((#[trigger] movers[u]).id)
                <==> board.commands[u].is_some()),
        forall|u: int|
            0 <= u < movers.len() && board.commands[u].is_some() ==> commands[(
            #[trigger] movers[u]).id] == ShipCommand::MoveShip(board.commands[u].unwrap()),
        forall|i: int|
            0 <= i < immovable.len() ==> commands.contains_key(#[trigger] immovable[i])
                && commands[immovable[i]] == ShipCommand::MoveShip(Direction::Still),
        builder matches Some(b) ==> commands.contains_key(b) && commands[b]
            == ShipCommand::MakeDropoff(),
    ensures
        board.forbidden.at_pos(p) <==> cell_taken(game, endgame, commands, p),
{
    let n = movers.len() as int;
    assert(board.forbidden.at_pos(p) == (!board.shared.at_pos(p) && (board.immovable.at_pos(p)
        || taken_by(movers, board.commands@, n, p))));
    if board.immovable.at_pos(p) {
        let i = choose|i: int| 0 <= i < immovable.len() && game.ships@[#[trigger] immovable[i]].pos == p;
        let id = immovable[i];
        assert(game.ship_ok(id, game.ships@[id]));
        game.lemma_still(game.ships@[id].pos);
        assert(commands.contains_key(id) && commands[id] == ShipCommand::MoveShip(Direction::Still)
            && lands(game, id, Direction::Still) == p);
    }
    if taken_by(movers, board.commands@, n, p) {
        let v = choose|v: int| 0 <= v < n && #[trigger] holds(movers, board.commands@, v, p);
        let d = board.commands[v].unwrap();
        assert(movers[v].candidates[d.index()].pos == game.around(game.ships@[movers[v].id].pos)[d.index()]);
        assert(commands.contains_key(movers[v].id));
        assert(commands[movers[v].id] == ShipCommand::MoveShip(d) && lands(game, movers[v].id, d)
            == p);
    }
    if exists|id: usize, d: Direction|
        commands.contains_key(id) && commands[id] == ShipCommand::MoveShip(d) && #[trigger] lands(
            game,
            id,
            d,
        ) == p {
        let (id, d) = choose|id: usize, d: Direction|
            commands.contains_key(id) && commands[id] == ShipCommand::MoveShip(d) && #[trigger] lands(
                game,
                id,
                d,
            ) == p;
        let u = lemma_command_source(game, immovable, builder, movers, board, commands, id, d);
        if u >= 0 {
            assert(holds(movers, board.commands@, u, p));
        }
    }
}

/// Where a command to move comes from: a ship that cannot move, which
/// stands still on its cell, or a mover committed to that move. Gives the
/// mover's place, or -1 for a ship that cannot move.
#[verifier::spinoff_prover]
pub proof fn lemma_command_source(
    game: Game,
    immovable: Seq<usize>,
    builder: Option<usize>,
    movers: Seq<Mover>,
    board: Board,
    commands: Map<usize, ShipCommand>,
    a: usize,
    da: Direction,
) -> (u: int)
    requires
        game.wf(),
        movers_ok(game, movers),
        forall|i: int| 0 <= i < immovable.len() ==> game.ships@.contains_key(#[trigger] immovable[i]),
        board.commands.len() == movers.len(),
        forall|p: Point|
            game.contains(p) ==> (#[trigger] board.immovable.at_pos(p) <==> exists|i: int|
                0 <= i < immovable.len() && game.ships@[#[trigger] immovable[i]].pos == p),
        forall|id: usize| #[trigger]
            commands.contains_key(id) ==> (immovable.contains(id) || builder == Some(id)
                || exists|u: int|
                0 <= u < movers.len() && (#[trigger] movers[u]).id == id && board.commands[u].is_some()),
        forall|u: int|
            0 <= u < movers.len() && board.commands[u].is_some() ==> commands[(
            #[trigger] movers[u]).id] == ShipCommand::MoveShip(board.commands[u].unwrap()),
        forall|i: int|
            0 <= i < immovable.len() ==> commands.contains_key(#[trigger] immovable[i])
                && commands[immovable[i]] == ShipCommand::MoveShip(Direction::Still),
        builder matches Some(b) ==> commands.contains_key(b) && commands[b]
            == ShipCommand::MakeDropoff(),
        commands.contains_key(a),
        commands[a] == ShipCommand::MoveShip(da),
    ensures
        game.contains(lands(game, a, da)),
        u < 0 ==> game.ships@.contains_key(a) && lands(game, a, da) == game.ships@[a].pos
            && board.immovable.at_pos(lands(game, a, da)),
        u >= 0 ==> u < movers.len() && movers[u].id == a && board.commands[u] == Some(da) && dest(
            movers,
            u,
            da,
        ) == lands(game, a, da),
{
    if immovable.contains(a) {
        let i = choose|i: int| 0 <= i < immovable.len() && immovable[i] == a;
        assert(commands[immovable[i]] == ShipCommand::MoveShip(Direction::Still));
        assert(game.ship_ok(a, game.ships@[a]));
        game.lemma_still(game.ships@[a].pos);
        assert(game.ships@[immovable[i]].pos == lands(game, a, da));
        -1
    } else {
        if builder == Some(a) {
            assert(commands[a] == ShipCommand::MakeDropoff());
        }
        let u = choose|u: int|
            0 <= u < movers.len() && (#[trigger] movers[u]).id == a && board.commands[u].is_some();
        assert(commands[movers[u].id] == ShipCommand::MoveShip(board.commands[u].unwrap()));
        assert(movers[u].wf(game.w(), game.h()));
        assert(movers[u].candidates[da.index()].pos == game.around(game.ships@[movers[u].id].pos)[da.index()]);
        assert(game.contains(movers[u].candidates[da.index()].pos));
        u
    }
}

/// The commands are those that the board gives: the ships that cannot
/// move stand still, the builder builds, every mover that is committed to a
/// move makes it, and no other ship has a command.
pub open spec fn commands_issued(
    idle: Seq<usize>,
    builder: Option<usize>,
    movers: Seq<Mover>,
    board: Board,
    commands: Map<usize, ShipCommand>,
) -> bool {
    &&& forall|id: usize| #[trigger]
        commands.contains_key(id) ==> (idle.contains(id) || builder == Some(id) || exists|u: int|
            0 <= u < movers.len() && (#[trigger] movers[u]).id == id && board.commands[u].is_some())
    &&& forall|u: int|
        0 <= u < movers.len() ==> (commands.contains_key((#[trigger] movers[u]).id)
            <==> board.commands[u].is_some())
    &&& forall|u: int|
        0 <= u < movers.len() && board.commands[u].is_some() ==> commands[(#[trigger] movers[u]).id]
            == ShipCommand::MoveShip(board.commands[u].unwrap())
    &&& forall|i: int|
        0 <= i < idle.len() ==> commands.contains_key(#[trigger] idle[i]) && commands[idle[i]]
            == ShipCommand::MoveShip(Direction::Still)
    &&& builder matches Some(b) ==> commands.contains_key(b) && commands[b]
        == ShipCommand::MakeDropoff()
}

/// The commands and the list of failed ships are what settling the
/// movers comes to: `start` is the board before any mover has had its turn,
/// with the cells of the ships that cannot move and the cells on which
/// ships may meet; `first` and `pass` are what the first round makes of it;
/// `boards` are the boards that the second round passes through; the
/// commands are issued from the last of them; and the failed ships are the
/// movers that the second round leaves without a command, in their order.
pub open spec fn settled(
    game: Game,
    endgame: bool,
    idle: Seq<usize>,
    builder: Option<usize>,
    movers: Seq<Mover>,
    commands: Map<usize, ShipCommand>,
    failed: Seq<usize>,
    start: Board,
    first: Board,
    pass: FirstPass,
    boards: Seq<Board>,
    picks: Seq<Option<usize>>,
) -> bool {
    &&& start.fresh(game.w(), game.h())
    &&& forall|p: Point|
        game.contains(p) ==> (#[trigger] start.immovable.at_pos(p) <==> exists|i: int|
            0 <= i < idle.len() && game.ships@[#[trigger] idle[i]].pos == p)
    &&& forall|p: Point|
        game.contains(p) ==> (#[trigger] start.shared.at_pos(p) <==> endgame && game.is_home(p))
    &&& first_round(game.w(), game.h(), movers, start, first, pass)
    &&& reroutes(game.w(), game.h(), movers, pass, boards, picks)
    &&& boards[0] == first
    &&& commands_issued(idle, builder, movers, boards.last(), commands)
    &&& failed == Seq::new(pass.colliding.len() as nat, |i: int| pass.colliding[i]).filter(
        |u: usize| boards.last().commands[u as int].is_none(),
    ).map_values(|u: usize| movers[u as int].id)
}

/// The ids of the movers at the given places.
pub fn ids_of(movers: &Vec<Mover>, places: &Vec<usize>) -> (ids: Vec<usize>)
    requires
        forall|j: int| 0 <= j < places.len() ==> (#[trigger] places[j]) < movers.len(),
    ensures
        ids@ == places@.map_values(|u: usize| movers@[u as int].id),
{
    let mut ids: Vec<usize> = Vec::new();
    let mut k: usize = 0;
    while k < places.len()
        invariant
            k <= places.len(),
            ids.len() == k,
            forall|j: int| 0 <= j < places.len() ==> (#[trigger] places[j]) < movers.len(),
            forall|j: int| 0 <= j < k ==> (#[trigger] ids[j]) == movers[places[j] as int].id,
        decreases places.len() - k,
    {
        ids.push(movers[places[k]].id);
        k += 1;
    }
    assert(ids@ =~= places@.map_values(|u: usize| movers@[u as int].id));
    ids
}

/// Settles who moves where: the movers reserve their cells in turn, those
/// left without a cell ask others to step aside, and the commands are
/// issued. Gives the commands, the movers that found no move, and the
/// cells that are taken.
#[verifier::spinoff_prover]
pub fn settle(
    game: &Game,
    endgame: bool,
    immovable: &Vec<usize>,
    builder: Option<usize>,
    movers: &Vec<Mover>,
) -> (r: (HashMap<usize, ShipCommand>, Vec<usize>, GMap<bool>))
    requires
        game.wf(),
        movers_ok(*game, movers@),
        immovable@.no_duplicates(),
        forall|i: int| 0 <= i < immovable.len() ==> game.ships@.contains_key(#[trigger] immovable[i]),
        forall|i: int, u: int|
            0 <= i < immovable.len() && 0 <= u < movers.len() ==> (#[trigger] immovable[i])
                != (#[trigger] movers[u]).id,
        forall|i: int| 0 <= i < immovable.len() ==> builder != Some(#[trigger] immovable[i]),
        forall|u: int| 0 <= u < movers.len() ==> builder != Some((#[trigger] movers[u]).id),
    ensures
        moves_apart(*game, endgame, r.0@),
        forall|id: usize| #[trigger]
            r.0@.contains_key(id) ==> (immovable@.contains(id) || builder == Some(id) || exists|u: int|
                0 <= u < movers.len() && (#[trigger] movers[u]).id == id),
        forall|i: int|
            0 <= i < immovable.len() ==> r.0@.contains_key(#[trigger] immovable[i])
                && r.0@[immovable[i]] == ShipCommand::MoveShip(Direction::Still),
        builder matches Some(b) ==> r.0@.contains_key(b) && r.0@[b] == ShipCommand::MakeDropoff(),
        forall|u: int|
            0 <= u < movers.len() ==> (r.0@.contains_key((#[trigger] movers[u]).id)
                <==> !r.1@.contains(movers[u].id)),
        forall|u: int|
            0 <= u < movers.len() && r.0@.contains_key((#[trigger] movers[u]).id) ==> exists|
                d: Direction,
            | r.0@[movers[u].id] == ShipCommand::MoveShip(d),
        forall|k: int|
            0 <= k < r.1.len() ==> exists|u: int|
                0 <= u < movers.len() && (#[trigger] movers[u]).id == #[trigger] r.1[k],
        r.2.wf(game.w(), game.h()),
        forall|p: Point|
            game.contains(p) ==> (#[trigger] r.2.at_pos(p) <==> cell_taken(*game, endgame, r.0@, p)),
        exists|
            start: Board,
            first: Board,
            pass: FirstPass,
            boards: Seq<Board>,
            picks: Seq<Option<usize>>,
        | #[trigger]
            settled(
                *game,
                endgame,
                immovable@,
                builder,
                movers@,
                r.0@,
                r.1@,
                start,
                first,
                pass,
                boards,
                picks,
            ),
{
    let immovable_pos = mark_cells(game, immovable);
    let shared = shared_cells(game, endgame);
    let mut board = Board::new(game.width, game.height, immovable_pos, shared);
    let ghost start = board;
    let pass = board.reserve_moves(game.width, game.height, movers);
    let ghost first = board;
    let failed = board.fix_collisions(game.width, game.height, movers, &pass);
    let ghost rounds = choose|boards: Seq<Board>, picks: Seq<Option<usize>>|
        {
            &&& #[trigger] reroutes(game.w(), game.h(), movers@, pass, boards, picks)
            &&& boards[0] == first
            &&& boards.last() == board
            &&& failed@ == Seq::new(pass.colliding.len() as nat, |i: int| pass.colliding[i]).filter(
                |u: usize| board.commands[u as int].is_none(),
            )
        };
    let commands = issue_commands(immovable, builder, movers, &board);
    let failed_ids = ids_of(movers, &failed);
    proof {
        assert(commands_issued(immovable@, builder, movers@, board, commands@));
        assert(first_round(game.w(), game.h(), movers@, start, first, pass));
        assert(reroutes(game.w(), game.h(), movers@, pass, rounds.0, rounds.1));
        assert(settled(
            *game,
            endgame,
            immovable@,
            builder,
            movers@,
            commands@,
            failed_ids@,
            start,
            first,
            pass,
            rounds.0,
            rounds.1,
        ));
        lemma_moves_apart(*game, endgame, immovable@, builder, movers@, board, commands@);
        assert(forall|j: int|
            0 <= j < failed_ids.len() ==> (#[trigger] failed_ids[j]) == movers[failed[j] as int].id);
        assert forall|p: Point| game.contains(p) implies (#[trigger] board.forbidden.at_pos(p)
            <==> cell_taken(*game, endgame, commands@, p)) by {
            lemma_forbidden_meaning(*game, endgame, immovable@, builder, movers@, board, commands@, p);
        }
        assert forall|u: int| 0 <= u < movers.len() implies (commands@.contains_key(
            (#[trigger] movers[u]).id,
        ) <==> !failed_ids@.contains(movers[u].id)) by {
            let id = movers[u].id;
            if commands@.contains_key(id) {
                assert(board.commands[u].is_some());
                if failed_ids@.contains(id) {
                    let j = choose|j: int| 0 <= j < failed_ids@.len() && failed_ids@[j] == id;
                    assert(failed_ids[j] == movers[failed[j] as int].id);
                    let v = failed[j] as int;
                    if v != u {
                        if v < u {
                            assert(movers[v].id != movers[u].id);
                        } else {
                            assert(movers[u].id != movers[v].id);
                        }
                    }
                    assert(failed@.contains(failed@[j]));
                }
            } else {
                assert(board.commands[u].is_none());
                assert(failed@.contains(u as usize));
                let j = choose|j: int| 0 <= j < failed@.len() && failed@[j] == u as usize;
                assert(failed_ids@[j] == id);
            }
        }
        assert forall|u: int|
            0 <= u < movers.len() && commands@.contains_key(
                (#[trigger] movers[u]).id,
            ) implies exists|d: Direction| commands@[movers[u].id] == ShipCommand::MoveShip(d) by {
            assert(commands@[movers[u].id] == ShipCommand::MoveShip(board.commands[u].unwrap()));
        }
        assert forall|j: int| 0 <= j < failed_ids.len() implies exists|u: int|
            0 <= u < movers.len() && (#[trigger] movers[u]).id == #[trigger] failed_ids[j] by {
            assert(movers[failed[j] as int].id == failed_ids[j]);
        }
        assert forall|id: usize| #[trigger] commands@.contains_key(id) implies (immovable@.contains(id)
            || builder == Some(id) || exists|u: int|
            0 <= u < movers.len() && (#[trigger] movers[u]).id == id) by {
            if !immovable@.contains(id) && builder != Some(id) {
                let u = choose|u: int|
                    0 <= u < movers.len() && (#[trigger] movers[u]).id == id && board.commands[u].is_some();
                assert(movers[u].id == id);
            }
        }
    }
    let ghost issued = commands@;
    let ghost names = failed_ids@;
    let r = (commands, failed_ids, board.forbidden);
    proof {
        assert(r.0@ == issued && r.1@ == names);
        assert(settled(
            *game,
            endgame,
            immovable@,
            builder,
            movers@,
            r.0@,
            r.1@,
            start,
            first,
            pass,
            rounds.0,
            rounds.1,
        ));
    }
    r
}

/// The ship `id` is one of the own ships that can move and does not build.
pub open spec fn is_mover(game: Game, builder: Option<usize>, id: usize) -> bool {
    game.my_ships().contains(id) && Some(id) != builder && !cannot_move(game, game.ships@[id])
}

/// The ship `id` is one of the own ships that cannot move and does not build.
pub open spec fn is_idle(game: Game, builder: Option<usize>, id: usize) -> bool {
    game.my_ships().contains(id) && Some(id) != builder && cannot_move(game, game.ships@[id])
}

/// What the first half of a turn's planning hands to the second.
pub struct Muster {
    /// The ships that can move, with their goals.
    pub crew: Vec<Sailor>,
    /// The ships that cannot move.
    pub idle: Vec<usize>,
    /// The ship that builds a deposit site, if any.
    pub builder: Option<usize>,
    /// What is left of the reserve once the site is paid for.
    pub funds: usize,
}

/// The sailor `after` is the sailor `before` with a goal assigned to it.
pub open spec fn given_goal(before: Sailor, after: Sailor) -> bool {
    exists|g: Goal| after == #[trigger] assigned(before, g)
}

/// How many goals are listed for a fleet of the given size: four for
/// every ship and twenty more, as far as a machine word holds it.
pub open spec fn goal_count(fleet: int) -> int {
    if fleet <= (usize::MAX - 20) / 4 {
        4 * fleet + 20
    } else {
        usize::MAX as int
    }
}

/// The cells that the miners of a crew are on, where `slots` are the
/// places of the miners in the crew.
pub open spec fn miner_cells(crew: Seq<Sailor>, slots: Seq<usize>) -> Seq<Point> {
    Seq::new(slots.len(), |k: int| crew[slots[k] as int].ship.pos)
}

/// The crew `after` is the crew `before` with its miners sent to goals:
/// `slots` are the places of the miners in the crew, `goals` the goals
/// listed for them, `weights` what `weigh` makes of every pair of miner and
/// goal, and `pairs` the greedy pairing by these weights, after which every
/// miner is bound for the goal of its pair. Every sailor on its way home is
/// left as it is. `picked` lists the goals that a miner has to sail to and
/// that are not deposit sites.
pub open spec fn goals_assigned<W: Fn(GoalTerms) -> i64>(
    game: Game,
    before: Seq<Sailor>,
    after: Seq<Sailor>,
    fleet: int,
    weigh: W,
    slots: Seq<usize>,
    goals: Seq<Goal>,
    weights: Seq<Vec<i64>>,
    pairs: Seq<(usize, usize)>,
    picked: Seq<Point>,
) -> bool {
    &&& picked == sailed_to(game, before, slots, goals, pairs, pairs.len() as int)
    &&& after.len() == before.len()
    &&& forall|i: int|
        0 <= i < before.len() && (#[trigger] before[i]).goal_type == GoalType::Deposit ==> after[i]
            == before[i]
    &&& forall|k: int| 0 <= k < slots.len() ==> (#[trigger] slots[k]) < before.len()
        && before[slots[k] as int].goal_type != GoalType::Deposit
    &&& forall|a: int, b: int| 0 <= a < b < slots.len() ==> slots[a] < slots[b]
    &&& forall|i: int|
        0 <= i < before.len() && (#[trigger] before[i]).goal_type != GoalType::Deposit
            ==> slots.contains(i as usize)
    &&& exists|picks: int| #[trigger]
        game.goals_picked(
            miner_cells(before, slots),
            goal_count(fleet),
            game.nearest_drop_pt_dist,
            goals,
            picks,
        )
    &&& table_ok(weights, slots.len() as int, goals.len() as int)
    &&& forall|g: int, m: int|
        0 <= g < goals.len() && 0 <= m < slots.len() ==> weigh.ensures(
            (pair_terms(game, before[slots[m] as int], goals[g]),),
            #[trigger] weights[g][m],
        )
    &&& greedy_pairing(weights, slots.len() as int, goals.len() as int, pairs)
    &&& forall|k: int|
        0 <= k < pairs.len() ==> after[slots[(#[trigger] pairs[k]).0 as int] as int] == assigned(
            before[slots[pairs[k].0 as int] as int],
            goals[pairs[k].1 as int],
        )
}

/// Whether a sailor of the crew is not on its way home.
pub open spec fn has_miner(crew: Seq<Sailor>) -> bool {
    exists|i: int| 0 <= i < crew.len() && (#[trigger] crew[i]).goal_type != GoalType::Deposit
}

/// The crew `after` is the crew `before` with its miners sent to goals,
/// and `picked` lists the goals that a miner has to sail to and that are
/// not deposit sites. A crew without miners is left as it is.
pub open spec fn goals_given<W: Fn(GoalTerms) -> i64>(
    game: Game,
    before: Seq<Sailor>,
    after: Seq<Sailor>,
    fleet: int,
    weigh: W,
    picked: Seq<Point>,
) -> bool {
    if has_miner(before) {
        exists|
            slots: Seq<usize>,
            goals: Seq<Goal>,
            weights: Seq<Vec<i64>>,
            pairs: Seq<(usize, usize)>,
        | #[trigger]
            goals_assigned(game, before, after, fleet, weigh, slots, goals, weights, pairs, picked)
    } else {
        after == before && picked == Seq::<Point>::empty()
    }
}

/// Every miner is given a goal; every sailor on its way home is left as
/// it is. The goals are the cells that the miners are on and the cells that
/// yield most, four for every ship of the fleet and twenty more; the pairs
/// of miner and goal are made greedily by their worth.
/// Gives the goals that a miner has to sail to and that are not deposit sites.
#[verifier::spinoff_prover]
pub fn assign_goals<W: Fn(GoalTerms) -> i64>(
    crew: &mut Vec<Sailor>,
    game: &Game,
    fleet: usize,
    weigh: &W,
) -> (picked: Vec<Point>)
    requires
        game.wf(),
        crew_ok(*game, old(crew)@),
        forall|t: GoalTerms| #[trigger] weigh.requires((t,)),
    ensures
        final(crew).len() == old(crew).len(),
        crew_ok(*game, final(crew)@),
        forall|i: int| 0 <= i < final(crew).len() ==> (#[trigger] final(crew)[i]).ship == old(crew)[i].ship,
        forall|i: int|
            0 <= i < final(crew).len() && old(crew)[i].goal_type == GoalType::Deposit
                ==> #[trigger] final(crew)[i] == old(crew)[i],
        forall|i: int|
            0 <= i < final(crew).len() && old(crew)[i].goal_type != GoalType::Deposit ==> given_goal(
                old(crew)[i],
                #[trigger] final(crew)[i],
            ),
        forall|j: int| 0 <= j < picked.len() ==> game.contains(#[trigger] picked[j]),
        goals_given(*game, old(crew)@, final(crew)@, fleet as int, *weigh, picked@),
{
    let ghost before = crew@;
    let slots = select_miners(crew);
    if slots.len() == 0 {
        proof {
            assert forall|i: int| 0 <= i < crew.len() implies before[i].goal_type
                == GoalType::Deposit by {
                if before[i].goal_type != GoalType::Deposit {
                    assert(slots@.contains(i as usize));
                }
            }
            assert(!has_miner(before));
        }
        let none: Vec<Point> = Vec::new();
        assert(none@ =~= Seq::<Point>::empty());
        return none;
    }
    let mut miner_ids: Vec<usize> = Vec::new();
    let mut k: usize = 0;
    while k < slots.len()
        invariant
            k <= slots.len(),
            miner_ids.len() == k,
            crew_ok(*game, crew@),
            crew@ == before,
            forall|j: int| 0 <= j < slots.len() ==> (#[trigger] slots[j]) < crew.len(),
            forall|j: int| 0 <= j < k ==> game.ships@.contains_key(#[trigger] miner_ids[j]),
            forall|j: int|
                0 <= j < k ==> #[trigger] miner_ids[j] == before[slots[j] as int].ship.ship_id,
        decreases slots.len() - k,
    {
        miner_ids.push(crew[slots[k]].ship.ship_id);
        k += 1;
    }
    let goal_count: usize = if fleet <= (usize::MAX - 20) / 4 {
        4 * fleet + 20
    } else {
        usize::MAX
    };
    let picked_goals = pick_goals(game, &miner_ids, goal_count, &game.nearest_drop_pt_dist);
    proof {
        let picks = choose|picks: int| #[trigger]
            game.goals_picked(
                crate::goals::positions_of(*game, miner_ids@),
                goal_count as int,
                game.nearest_drop_pt_dist,
                picked_goals@,
                picks,
            );
        let miners = crate::goals::positions_of(*game, miner_ids@);
        assert forall|g: int| 0 <= g < picked_goals.len() implies game.contains(
            (#[trigger] picked_goals[g]).pos,
        ) by {
            if g < miners.len() {
                assert(picked_goals[g].pos == miners[g]);
                assert(game.ship_ok(miner_ids[g], game.ships@[miner_ids[g]]));
            } else if g < picks {
                assert(game.best_open(game.nearest_drop_pt_dist, picked_goals@, g));
            } else {
                assert(picked_goals[g].pos == game.my_drop_pts@.last());
                assert(game.contains(game.my_drop_pts@[game.my_drop_pts@.len() - 1]));
            }
        }
        assert(picked_goals.len() >= slots.len());
    }
    let weights = build_weights(game, crew, &slots, &picked_goals, weigh);
    let pairs = assign_greedy(&weights, slots.len(), picked_goals.len());
    proof {
        crate::assign::greedy_pairing_is_matching(
            weights@,
            slots.len() as int,
            picked_goals.len() as int,
            pairs@,
        );
        assert forall|j: int| 0 <= j < pairs.len() implies (#[trigger] pairs[j]).0 < slots.len()
            && pairs[j].1 < picked_goals.len() by {
            assert(crate::assign::greedy_step(
                weights@,
                slots.len() as int,
                picked_goals.len() as int,
                pairs@,
                j,
            ));
        }
    }
    let picked = apply_pairs(crew, game, &slots, &picked_goals, &pairs);
    proof {
        let miners = miner_cells(before, slots@);
        assert(crate::goals::positions_of(*game, miner_ids@) =~= miners) by {
            assert forall|k: int| 0 <= k < miners.len() implies crate::goals::positions_of(
                *game,
                miner_ids@,
            )[k] == miners[k] by {
                assert(miner_ids[k] == before[slots[k] as int].ship.ship_id);
                assert(game.ships@[before[slots[k] as int].ship.ship_id] == before[slots[k] as int].ship);
            }
        }
        let picks = choose|picks: int| #[trigger]
            game.goals_picked(
                crate::goals::positions_of(*game, miner_ids@),
                goal_count as int,
                game.nearest_drop_pt_dist,
                picked_goals@,
                picks,
            );
        assert(game.goals_picked(
            miner_cells(before, slots@),
            self::goal_count(fleet as int),
            game.nearest_drop_pt_dist,
            picked_goals@,
            picks,
        ));
        assert(forall|k: int| 0 <= k < slots@.len() ==> (#[trigger] slots@[k]) < before.len()
            && before[slots@[k] as int].goal_type != GoalType::Deposit);
        assert(forall|i: int|
            0 <= i < before.len() && (#[trigger] before[i]).goal_type != GoalType::Deposit
                ==> slots@.contains(i as usize));
        assert(goals_assigned(
            *game,
            before,
            crew@,
            fleet as int,
            *weigh,
            slots@,
            picked_goals@,
            weights@,
            pairs@,
            picked@,
        ));
        assert(before[slots[0] as int].goal_type != GoalType::Deposit);
        assert(has_miner(before));
        assert forall|i: int| 0 <= i < crew.len() implies (if before[i].goal_type
            == GoalType::Deposit {
            #[trigger] crew[i] == before[i]
        } else {
            given_goal(before[i], crew[i])
        }) by {
            if before[i].goal_type == GoalType::Deposit {
                assert(!(exists|j: int|
                    0 <= j < pairs.len() && slots[(#[trigger] pairs[j]).0 as int] == i)) by {
                    if exists|j: int|
                        0 <= j < pairs.len() && slots[(#[trigger] pairs[j]).0 as int] == i {
                        let j = choose|j: int|
                            0 <= j < pairs.len() && slots[(#[trigger] pairs[j]).0 as int] == i;
                        assert(before[slots[pairs[j].0 as int] as int].goal_type
                            != GoalType::Deposit);
                    }
                }
            } else {
                assert(slots@.contains(i as usize));
                let sl = choose|sl: int| 0 <= sl < slots@.len() && slots@[sl] == i as usize;
                assert(crate::assign::used_upto(pairs@, slots.len() as int).contains(sl));
                let j = choose|j: int| 0 <= j < slots.len() && pairs@[j].0 == sl;
                assert(crew[slots[pairs[j].0 as int] as int] == assigned(
                    before[slots[pairs[j].0 as int] as int],
                    picked_goals[pairs[j].1 as int],
                ));
            }
        }
    }
    picked
}

/// Whether the ship `id` is one of the crew.
pub open spec fn on_board(crew: Seq<Sailor>, id: usize) -> bool {
    exists|i: int| 0 <= i < crew.len() && (#[trigger] crew[i]).ship.ship_id == id
}

/// Writes what every sailor does now into what is remembered of its ship.
#[verifier::spinoff_prover]
pub fn remember(memory: &mut HashMap<usize, ShipMemory>, crew: &Vec<Sailor>)
    requires
        forall|i: int|
            0 <= i < crew.len() ==> old(memory)@.contains_key((#[trigger] crew[i]).ship.ship_id),
        forall|i: int, j: int| 0 <= i < j < crew.len() ==> crew[i].ship.ship_id != crew[j].ship.ship_id,
    ensures
        forall|id: usize| #[trigger] final(memory)@.contains_key(id) <==> old(memory)@.contains_key(id),
        forall|i: int|
            0 <= i < crew.len() ==> #[trigger] final(memory)@[crew[i].ship.ship_id] == (ShipMemory {
                goal_type: crew[i].goal_type,
                ..old(memory)@[crew[i].ship.ship_id]
            }),
        forall|id: usize|
            old(memory)@.contains_key(id) && !on_board(crew@, id) ==> #[trigger] final(memory)@[id]
                == old(memory)@[id],
{
    broadcast use vstd::std_specs::hash::group_hash_axioms;

    let ghost before = memory@;
    let mut i: usize = 0;
    while i < crew.len()
        invariant
            i <= crew.len(),
            forall|j: int|
                0 <= j < crew.len() ==> before.contains_key((#[trigger] crew[j]).ship.ship_id),
            forall|a: int, b: int|
                0 <= a < b < crew.len() ==> crew[a].ship.ship_id != crew[b].ship.ship_id,
            forall|id: usize| #[trigger] memory@.contains_key(id) <==> before.contains_key(id),
            forall|j: int|
                0 <= j < i ==> #[trigger] memory@[crew[j].ship.ship_id] == (ShipMemory {
                    goal_type: crew[j].goal_type,
                    ..before[crew[j].ship.ship_id]
                }),
            forall|id: usize|
                before.contains_key(id) && !on_board(crew@.subrange(0, i as int), id)
                    ==> #[trigger] memory@[id] == before[id],
        decreases crew.len() - i,
    {
        let sailor = crew[i];
        let id = sailor.ship.ship_id;
        let known = match memory.get(&id) {
            Some(m) => *m,
            None => vstd::pervasive::unreached(),
        };
        let ghost prior = memory@;
        memory.insert(
            id,
            ShipMemory {
                goal_type: sailor.goal_type,
                turns_stuck: known.turns_stuck,
                prev_pos: known.prev_pos,
            },
        );
        proof {
            assert(!on_board(crew@.subrange(0, i as int), id)) by {
                if on_board(crew@.subrange(0, i as int), id) {
                    let j = choose|j: int|
                        0 <= j < i && (#[trigger] crew@.subrange(0, i as int)[j]).ship.ship_id == id;
                    assert(crew[j].ship.ship_id != crew[i as int].ship.ship_id);
                }
            }
            assert(known == before[id]);
            assert forall|j: int| 0 <= j < i + 1 implies #[trigger] memory@[crew[j].ship.ship_id] == (
            ShipMemory { goal_type: crew[j].goal_type, ..before[crew[j].ship.ship_id] }) by {
                if j < i {
                    assert(crew[j].ship.ship_id != crew[i as int].ship.ship_id);
                    assert(prior[crew[j].ship.ship_id] == memory@[crew[j].ship.ship_id]);
                }
            }
            assert forall|other: usize|
                before.contains_key(other) && !on_board(
                    crew@.subrange(0, i as int + 1),
                    other,
                ) implies #[trigger] memory@[other] == before[other] by {
                assert(crew@.subrange(0, i as int + 1)[i as int].ship.ship_id == id);
                assert(other != id);
                if on_board(crew@.subrange(0, i as int), other) {
                    let j = choose|j: int|
                        0 <= j < i && (#[trigger] crew@.subrange(0, i as int)[j]).ship.ship_id
                            == other;
                    assert(crew@.subrange(0, i as int + 1)[j].ship.ship_id == other);
                }
            }
        }
        i += 1;
    }
    assert(crew@.subrange(0, crew.len() as int) =~= crew@);
}

/// The crew as the turn finds it: every own ship that can move and does
/// not build, with what it decides to do next and for how long it has been
/// stuck, bound for the nearest deposit site. `memory` and `endgame` are what
/// the planner held when the turn began.
pub open spec fn crew_at_start(
    game: Game,
    memory: Map<usize, ShipMemory>,
    endgame: bool,
    builder: Option<usize>,
) -> Seq<Sailor> {
    let movable = movable_ships(game, builder);
    let rules = game.rules_for(game.my_ships().len() as int);
    Seq::new(
        movable.len(),
        |i: int|
            Sailor {
                ship: game.ships@[movable[i]],
                goal_type: next_goal_type(
                    game,
                    game.ships@[movable[i]],
                    remembered(game, memory, movable[i]).goal_type,
                    rules,
                    endgame_after(game, movable, rules, endgame, i + 1),
                ),
                turns_stuck: remembered(game, memory, movable[i]).turns_stuck,
                target: game.my_drop_pts[game.nearest_drop_pt_idx.at_pos(
                    game.ships@[movable[i]].pos,
                ) as int],
            },
    )
}

/// What is remembered once the goals of a turn are set: of every own ship
/// what was seen of it this turn, and of every sailor what it does now.
pub open spec fn memory_kept(
    game: Game,
    before: Map<usize, ShipMemory>,
    after: Map<usize, ShipMemory>,
    crew: Seq<Sailor>,
) -> bool {
    &&& forall|id: usize| #[trigger] after.contains_key(id) <==> game.my_ships().contains(id)
    &&& forall|i: int|
        0 <= i < crew.len() ==> #[trigger] after[crew[i].ship.ship_id] == (ShipMemory {
            goal_type: crew[i].goal_type,
            ..remembered(game, before, crew[i].ship.ship_id)
        })
    &&& forall|id: usize|
        game.my_ships().contains(id) && !on_board(crew, id) ==> #[trigger] after[id] == remembered(
            game,
            before,
            id,
        )
}

/// The ship that builds a deposit site is rightly chosen: where a site is
/// worth saving for and can be paid for, it is the ship of the pair of ship
/// and candidate that scores highest among those that may build, and none if
/// no ship may build anywhere; else none builds.
pub open spec fn builder_chosen(
    game: Game,
    cands: Seq<DropoffCandidate>,
    spacing: int,
    builder: Option<usize>,
) -> bool {
    if game.worth_saving(cands) && game.energy[game.my_pid as int] >= game.constants.dropoff_cost {
        match builder {
            Some(b) => exists|i: int, j: int| #[trigger]
                game.best_build(cands, spacing, i, j) && game.my_ships()[i] == b,
            None => forall|i: int, j: int| !#[trigger] game.may_build(cands, spacing, i, j),
        }
    } else {
        builder.is_none()
    }
}

/// What the first half of a turn makes of the planner's state `before`.
///
/// The candidate sites that no longer pay are dropped and the builder is
/// chosen. The fleet begins to cash out if one of the ships that can move
/// must turn home to arrive in time. The crew is the crew as the turn finds
/// it, with a goal given to every miner. The goals `picked`, which miners
/// have to sail to, yield the candidate sites `added`, whose clusters are led
/// by the goals at the places `leads`.
pub open spec fn prepared<W: Fn(GoalTerms) -> i64>(
    game: Game,
    before: Logic,
    after: Logic,
    weigh: W,
    crew: Seq<Sailor>,
    idle: Seq<usize>,
    builder: Option<usize>,
    picked: Seq<Point>,
    added: Seq<DropoffCandidate>,
    leads: Seq<int>,
) -> bool {
    let fleet = game.my_ships().len() as int;
    let rules = game.rules_for(fleet);
    let spacing = rules.dropoff_spacing as int;
    let kept = before.dropoff_candidates@.filter(|dc: DropoffCandidate| game.keeps(spacing, dc));
    let movable = movable_ships(game, builder);
    &&& builder_chosen(game, kept, spacing, builder)
    &&& idle == idle_ships(game, builder)
    &&& after.endgame == endgame_after(game, movable, rules, before.endgame, movable.len() as int)
    &&& after.saving_for_dropoff == (game.worth_saving(kept) && builder.is_none())
    &&& goals_given(
        game,
        crew_at_start(game, before.memory@, before.endgame, builder),
        crew,
        fleet,
        weigh,
        picked,
    )
    &&& game.sites_found(firsts(picked), spacing, kept, added, leads)
    &&& after.dropoff_candidates@ == kept + added
    &&& memory_kept(game, before.memory@, after.memory@, crew)
}

/// Once the sailors have their goals and what they do is written down,
/// what is remembered is still what was seen of every ship, and of every
/// sailor what it does now.
pub proof fn lemma_memory_kept(
    game: Game,
    seen: Map<usize, ShipMemory>,
    enlisted: Map<usize, ShipMemory>,
    after: Map<usize, ShipMemory>,
    mustered: Seq<Sailor>,
    crew: Seq<Sailor>,
)
    requires
        memory_kept(game, seen, enlisted, mustered),
        crew.len() == mustered.len(),
        forall|i: int| 0 <= i < crew.len() ==> (#[trigger] crew[i]).ship == mustered[i].ship,
        forall|i: int| 0 <= i < crew.len() ==> game.my_ships().contains((#[trigger] crew[i]).ship.ship_id),
        forall|id: usize| #[trigger] after.contains_key(id) <==> enlisted.contains_key(id),
        forall|i: int|
            0 <= i < crew.len() ==> #[trigger] after[crew[i].ship.ship_id] == (ShipMemory {
                goal_type: crew[i].goal_type,
                ..enlisted[crew[i].ship.ship_id]
            }),
        forall|id: usize|
            enlisted.contains_key(id) && !on_board(crew, id) ==> #[trigger] after[id] == enlisted[id],
    ensures
        memory_kept(game, seen, after, crew),
{
    assert forall|i: int| 0 <= i < crew.len() implies #[trigger] after[crew[i].ship.ship_id] == (
    ShipMemory { goal_type: crew[i].goal_type, ..remembered(game, seen, crew[i].ship.ship_id) }) by {
        assert(mustered[i].ship.ship_id == crew[i].ship.ship_id);
        assert(enlisted[mustered[i].ship.ship_id] == (ShipMemory {
            goal_type: mustered[i].goal_type,
            ..remembered(game, seen, mustered[i].ship.ship_id)
        }));
    }
    assert forall|id: usize|
        game.my_ships().contains(id) && !on_board(crew, id) implies #[trigger] after[id]
        == remembered(game, seen, id) by {
        if on_board(mustered, id) {
            let i = choose|i: int|
                0 <= i < mustered.len() && (#[trigger] mustered[i]).ship.ship_id == id;
            assert(crew[i].ship.ship_id == id);
        }
        assert(enlisted[id] == remembered(game, seen, id));
    }
}

/// What holds of a crew with its goals: its ships are the ships that can
/// move and do not build; a ship that carries nearly all it can and is not
/// home is on its way home; what is remembered of a sailor is what it does
/// and where its ship is.
pub proof fn lemma_crew_facts(
    game: Game,
    builder: Option<usize>,
    seen: Map<usize, ShipMemory>,
    endgame: bool,
    mustered: Seq<Sailor>,
    crew: Seq<Sailor>,
    memory: Map<usize, ShipMemory>,
)
    requires
        mustered == crew_at_start(game, seen, endgame, builder),
        crew.len() == mustered.len(),
        forall|i: int| 0 <= i < crew.len() ==> (#[trigger] crew[i]).ship == mustered[i].ship,
        forall|i: int|
            0 <= i < crew.len() ==> ((#[trigger] crew[i]).goal_type == GoalType::Deposit
                <==> mustered[i].goal_type == GoalType::Deposit) && (crew[i].goal_type
                == GoalType::Deposit ==> crew[i] == mustered[i]),
        forall|i: int| 0 <= i < mustered.len() ==> is_mover(game, builder, (#[trigger] mustered[i]).ship.ship_id),
        forall|id: usize| is_mover(game, builder, id) ==> #[trigger] on_board(mustered, id),
        forall|i: int|
            0 <= i < mustered.len() ==> game.ships@[(#[trigger] mustered[i]).ship.ship_id]
                == mustered[i].ship,
        memory_kept(game, seen, memory, crew),
    ensures
        forall|i: int| 0 <= i < crew.len() ==> is_mover(game, builder, (#[trigger] crew[i]).ship.ship_id),
        forall|id: usize|
            is_mover(game, builder, id) ==> exists|i: int|
                0 <= i < crew.len() && (#[trigger] crew[i]).ship.ship_id == id,
        forall|id: usize|
            game.my_ships().contains(id) ==> (#[trigger] memory[id]).prev_pos == game.ships@[id].pos,
        forall|i: int|
            0 <= i < crew.len() ==> (#[trigger] memory[crew[i].ship.ship_id]).goal_type
                == crew[i].goal_type,
        forall|i: int|
            0 <= i < crew.len() && (#[trigger] crew[i]).ship.halite >= 950 && !game.is_home(
                crew[i].ship.pos,
            ) ==> crew[i].goal_type == GoalType::Deposit,
        forall|i: int|
            0 <= i < crew.len() && (#[trigger] crew[i]).goal_type == GoalType::Deposit
                ==> crew[i].target == game.my_drop_pts[game.nearest_drop_pt_idx.at_pos(
                crew[i].ship.pos,
            ) as int],
{
    assert forall|i: int| 0 <= i < crew.len() implies is_mover(
        game,
        builder,
        (#[trigger] crew[i]).ship.ship_id,
    ) by {
        assert(is_mover(game, builder, mustered[i].ship.ship_id));
    }
    assert forall|id: usize| is_mover(game, builder, id) implies exists|i: int|
        0 <= i < crew.len() && (#[trigger] crew[i]).ship.ship_id == id by {
        assert(on_board(mustered, id));
        let i = choose|i: int| 0 <= i < mustered.len() && (#[trigger] mustered[i]).ship.ship_id == id;
        assert(crew[i].ship.ship_id == id);
    }
    assert forall|id: usize| game.my_ships().contains(id) implies (#[trigger] memory[id]).prev_pos
        == game.ships@[id].pos by {
        if on_board(crew, id) {
            let i = choose|i: int| 0 <= i < crew.len() && (#[trigger] crew[i]).ship.ship_id == id;
            assert(memory[crew[i].ship.ship_id].prev_pos == remembered(game, seen, id).prev_pos);
        }
    }
    assert forall|i: int|
        0 <= i < crew.len() && (#[trigger] crew[i]).ship.halite >= 950 && !game.is_home(
            crew[i].ship.pos,
        ) implies crew[i].goal_type == GoalType::Deposit by {
        assert(mustered[i].ship == crew[i].ship);
        assert(mustered[i].goal_type == GoalType::Deposit);
    }
    assert forall|i: int|
        0 <= i < crew.len() && (#[trigger] crew[i]).goal_type == GoalType::Deposit implies crew[i].target
        == game.my_drop_pts[game.nearest_drop_pt_idx.at_pos(crew[i].ship.pos) as int] by {
        assert(crew[i] == mustered[i]);
        assert(game.ships@[mustered[i].ship.ship_id] == mustered[i].ship);
    }
}

impl Logic {
    /// Opens a turn: remembers the ships, drops the candidate sites that
    /// no longer pay, and picks the ship that builds a deposit site, if one
    /// is to be built and can be paid for. Gives the rules of the turn, the
    /// builder, and what is left of the reserve.
    pub fn open_turn(&mut self, game: &Game) -> (r: (TurnRules, Option<usize>, usize))
        requires
            game.wf(),
            old(self).wf(*game),
        ensures
            final(self).wf(*game),
            final(self).endgame == old(self).endgame,
            r.0 == game.rules_for(game.my_ships().len() as int),
            forall|id: usize| #[trigger] final(self).memory@.contains_key(id) <==> game.my_ships().contains(id),
            forall|id: usize|
                game.my_ships().contains(id) ==> #[trigger] final(self).memory@[id]
                    == crate::fleet::remembered(*game, old(self).memory@, id),
            final(self).dropoff_candidates@ == old(self).dropoff_candidates@.filter(
                |dc: DropoffCandidate| game.keeps(r.0.dropoff_spacing as int, dc),
            ),
            r.1 matches Some(b) ==> game.my_ships().contains(b),
            r.1.is_some() ==> game.energy[game.my_pid as int] >= game.constants.dropoff_cost,
            r.2 == game.energy[game.my_pid as int] - (if r.1.is_some() {
                game.constants.dropoff_cost as int
            } else {
                0
            }),
            final(self).saving_for_dropoff == (game.worth_saving(final(self).dropoff_candidates@)
                && r.1.is_none()),
            r.1.is_some() ==> game.worth_saving(final(self).dropoff_candidates@),
            r.1 matches Some(b) ==> exists|i: int, j: int| #[trigger]
                game.best_build(final(self).dropoff_candidates@, r.0.dropoff_spacing as int, i, j)
                    && game.my_ships()[i] == b,
            r.1.is_none() && game.worth_saving(final(self).dropoff_candidates@)
                && game.energy[game.my_pid as int] >= game.constants.dropoff_cost ==> forall|
                i: int,
                j: int,
            |
                !#[trigger] game.may_build(
                    final(self).dropoff_candidates@,
                    r.0.dropoff_spacing as int,
                    i,
                    j,
                ),
    {
        let fleet = game.ship_id_by_player[game.my_pid].len();
        let rules = game.turn_rules(fleet);
        let memory = recall(game, &self.memory);
        self.memory = memory;
        let kept = prune_candidates(game, &self.dropoff_candidates, rules.dropoff_spacing);
        self.dropoff_candidates = kept;
        let mut funds = game.energy[game.my_pid];
        self.saving_for_dropoff = self.dropoff_candidates.len() > 0 && fleet > 15
            && (game.turn_number as u128) + (game.width as u128) * 3 / 2
            < game.constants.max_turns as u128;
        let ghost saving = self.saving_for_dropoff;
        assert(saving == game.worth_saving(self.dropoff_candidates@));
        let mut builder: Option<usize> = None;
        if funds >= game.constants.dropoff_cost && self.saving_for_dropoff {
            builder = choose_dropoff_ship(game, &self.dropoff_candidates, rules.dropoff_spacing);
            if builder.is_some() {
                funds = funds - game.constants.dropoff_cost;
                self.saving_for_dropoff = false;
            }
        }
        proof {
            match builder {
                Some(b) => {
                    assert(saving);
                    let (i, j) = choose|i: int, j: int| #[trigger]
                        game.best_build(
                            self.dropoff_candidates@,
                            rules.dropoff_spacing as int,
                            i,
                            j,
                        ) && game.my_ships()[i] == b;
                    assert(game.may_build(
                        self.dropoff_candidates@,
                        rules.dropoff_spacing as int,
                        i,
                        j,
                    ));
                    assert(game.my_ships()[i] == b);
                    assert(game.best_build(
                        self.dropoff_candidates@,
                        rules.dropoff_spacing as int,
                        i,
                        j,
                    ) && game.my_ships()[i] == b);
                    assert(game.worth_saving(self.dropoff_candidates@));
                },
                None => {},
            }
        }
        let r = (rules, builder, funds);
        proof {
            assert(r.0 == rules);
            assert(builder matches Some(b) ==> exists|i: int, j: int| #[trigger]
                game.best_build(self.dropoff_candidates@, rules.dropoff_spacing as int, i, j)
                    && game.my_ships()[i] == b);
            assert(r.1 matches Some(b) ==> exists|i: int, j: int| #[trigger]
                game.best_build(self.dropoff_candidates@, r.0.dropoff_spacing as int, i, j)
                    && game.my_ships()[i] == b);
        }
        r
    }

    /// Lets every own ship that can move and does not build decide what it
    /// does next, and musters these ships as the crew. Gives the crew and the
    /// ships that cannot move. `seen` is what the planner remembered when the
    /// turn began; what it remembers now is what was seen of every ship.
    #[verifier::spinoff_prover]
    fn enlist(
        &mut self,
        game: &Game,
        builder: Option<usize>,
        rules: TurnRules,
        Ghost(seen): Ghost<Map<usize, ShipMemory>>,
    ) -> (r: (Vec<Sailor>, Vec<usize>))
        requires
            game.wf(),
            rules == game.rules_for(game.my_ships().len() as int),
            forall|id: usize| #[trigger] old(self).memory@.contains_key(id) <==> game.my_ships().contains(id),
            forall|id: usize|
                game.my_ships().contains(id) ==> #[trigger] old(self).memory@[id] == remembered(
                    *game,
                    seen,
                    id,
                ),
        ensures
            final(self).dropoff_candidates == old(self).dropoff_candidates,
            final(self).saving_for_dropoff == old(self).saving_for_dropoff,
            final(self).endgame == endgame_after(
                *game,
                movable_ships(*game, builder),
                rules,
                old(self).endgame,
                movable_ships(*game, builder).len() as int,
            ),
            r.0@ == crew_at_start(*game, seen, old(self).endgame, builder),
            r.1@ == idle_ships(*game, builder),
            r.1@.no_duplicates(),
            crew_ok(*game, r.0@),
            memory_kept(*game, seen, final(self).memory@, r.0@),
            forall|i: int| 0 <= i < r.0.len() ==> is_mover(*game, builder, (#[trigger] r.0[i]).ship.ship_id),
            forall|id: usize| is_mover(*game, builder, id) ==> #[trigger] on_board(r.0@, id),
            forall|i: int| 0 <= i < r.1.len() ==> is_idle(*game, builder, #[trigger] r.1[i]),
            forall|id: usize| is_idle(*game, builder, id) ==> #[trigger] r.1@.contains(id),
    {
        let (my_movable, my_immovable) = split_fleet(game, builder);
        let ghost can = |id: usize| Some(id) != builder && !cannot_move(*game, game.ships@[id]);
        let ghost cannot = |id: usize| Some(id) != builder && cannot_move(*game, game.ships@[id]);
        proof {
            lemma_filter_members(game.my_ships(), can);
            lemma_filter_members(game.my_ships(), cannot);
            lemma_filter_distinct(game.my_ships(), can);
            lemma_filter_distinct(game.my_ships(), cannot);
            assert forall|i: int| 0 <= i < my_movable.len() implies game.ships@.contains_key(
                #[trigger] my_movable[i],
            ) && self.memory@.contains_key(my_movable[i]) by {
                assert(my_movable@.contains(my_movable@[i]));
                let id = my_movable[i];
                assert(game.my_ships().contains(id));
                let j = choose|j: int| 0 <= j < game.my_ships().len() && game.my_ships()[j] == id;
                assert(game.ships@.contains_key(game.roster(game.my_pid as int)[j]));
            }
        }
        let ghost recalled = self.memory@;
        update_goal_types(&mut self.memory, &mut self.endgame, game, &my_movable, rules);
        let ghost decided = self.memory@;
        let crew = muster(game, &self.memory, &my_movable);
        proof {
            let start = crew_at_start(*game, seen, old(self).endgame, builder);
            assert(crew@ =~= start) by {
                assert forall|i: int| 0 <= i < crew.len() implies crew[i] == start[i] by {
                    let id = my_movable[i];
                    assert(my_movable@.contains(my_movable@[i]));
                    assert(game.my_ships().contains(id));
                    assert(recalled[id] == remembered(*game, seen, id));
                    assert(decided[my_movable[i]].goal_type == next_goal_type(
                        *game,
                        game.ships@[id],
                        recalled[id].goal_type,
                        rules,
                        endgame_after(*game, my_movable@, rules, old(self).endgame, i + 1),
                    ));
                }
            }
            assert(memory_kept(*game, seen, self.memory@, crew@)) by {
                assert forall|i: int| 0 <= i < crew.len() implies #[trigger] self.memory@[crew[i].ship.ship_id]
                    == (ShipMemory {
                    goal_type: crew[i].goal_type,
                    ..remembered(*game, seen, crew[i].ship.ship_id)
                }) by {
                    let id = my_movable[i];
                    assert(crew[i].ship.ship_id == id);
                    assert(my_movable@.contains(my_movable@[i]));
                    assert(game.my_ships().contains(id));
                    assert(recalled[id] == remembered(*game, seen, id));
                    assert(decided[my_movable[i]].prev_pos == recalled[id].prev_pos);
                    assert(decided[my_movable[i]].turns_stuck == recalled[id].turns_stuck);
                }
                assert forall|id: usize|
                    game.my_ships().contains(id) && !on_board(crew@, id) implies #[trigger] self.memory@[id]
                    == remembered(*game, seen, id) by {
                    assert(recalled[id] == remembered(*game, seen, id));
                    if my_movable@.contains(id) {
                        let i = choose|i: int| 0 <= i < my_movable@.len() && my_movable@[i] == id;
                        assert(crew[i].ship.ship_id == id);
                    }
                    assert(decided[id] == recalled[id]);
                }
            }
            assert forall|i: int| 0 <= i < crew.len() implies is_mover(
                *game,
                builder,
                (#[trigger] crew[i]).ship.ship_id,
            ) by {
                assert(my_movable@.contains(my_movable@[i]));
            }
            assert forall|id: usize| is_mover(*game, builder, id) implies #[trigger] on_board(
                crew@,
                id,
            ) by {
                assert(my_movable@.contains(id));
                let i = choose|i: int| 0 <= i < my_movable@.len() && my_movable@[i] == id;
                assert(crew[i].ship.ship_id == id);
            }
            assert forall|i: int| 0 <= i < my_immovable.len() implies is_idle(
                *game,
                builder,
                #[trigger] my_immovable[i],
            ) by {
                assert(my_immovable@.contains(my_immovable@[i]));
            }
        }
        let ghost sailors = crew@;
        let ghost resting = my_immovable@;
        let r = (crew, my_immovable);
        proof {
            assert(r.0@ == sailors && r.1@ == resting);
        }
        r
    }

    /// The first half of a turn: opens the turn, lets every ship that can
    /// move decide what it does next, and gives every miner a goal.
    #[verifier::spinoff_prover]
    pub fn prepare<W: Fn(GoalTerms) -> i64>(&mut self, game: &Game, weigh: &W) -> (m: Muster)
        requires
            game.wf(),
            old(self).wf(*game),
            forall|t: GoalTerms| #[trigger] weigh.requires((t,)),
        ensures
            final(self).wf(*game),
            crew_ok(*game, m.crew@),
            forall|id: usize| #[trigger] final(self).memory@.contains_key(id) <==> game.my_ships().contains(id),
            forall|id: usize|
                game.my_ships().contains(id) ==> (#[trigger] final(self).memory@[id]).prev_pos
                    == game.ships@[id].pos,
            forall|i: int|
                0 <= i < m.crew.len() ==> is_mover(*game, m.builder, (#[trigger] m.crew[i]).ship.ship_id),
            forall|id: usize|
                is_mover(*game, m.builder, id) ==> exists|i: int|
                    0 <= i < m.crew.len() && (#[trigger] m.crew[i]).ship.ship_id == id,
            forall|i: int| 0 <= i < m.idle.len() ==> is_idle(*game, m.builder, #[trigger] m.idle[i]),
            forall|id: usize| is_idle(*game, m.builder, id) ==> #[trigger] m.idle@.contains(id),
            m.idle@.no_duplicates(),
            m.builder matches Some(b) ==> game.my_ships().contains(b),
            m.funds == game.energy[game.my_pid as int] - (if m.builder.is_some() {
                game.constants.dropoff_cost as int
            } else {
                0
            }),
            old(self).endgame ==> final(self).endgame,
            forall|i: int|
                0 <= i < m.crew.len() ==> (#[trigger] final(self).memory@[m.crew[i].ship.ship_id]).goal_type
                    == m.crew[i].goal_type,
            forall|i: int|
                0 <= i < m.crew.len() && (#[trigger] m.crew[i]).ship.halite >= 950 && !game.is_home(
                    m.crew[i].ship.pos,
                ) ==> m.crew[i].goal_type == GoalType::Deposit,
            forall|i: int|
                0 <= i < m.crew.len() && (#[trigger] m.crew[i]).goal_type == GoalType::Deposit
                    ==> m.crew[i].target == game.my_drop_pts[game.nearest_drop_pt_idx.at_pos(
                    m.crew[i].ship.pos,
                ) as int],
            forall|i: int|
                0 <= i < m.crew.len() ==> ((#[trigger] m.crew[i]).goal_type == GoalType::Mine
                    <==> m.crew[i].goal_type != GoalType::Deposit && m.crew[i].target
                    == m.crew[i].ship.pos),
            exists|picked: Seq<Point>, added: Seq<DropoffCandidate>, leads: Seq<int>| #[trigger]
                prepared(
                    *game,
                    *old(self),
                    *final(self),
                    *weigh,
                    m.crew@,
                    m.idle@,
                    m.builder,
                    picked,
                    added,
                    leads,
                ),
    {
        let ghost seen = self.memory@;
        let (rules, builder, funds) = self.open_turn(game);
        let ghost opened = *self;
        let fleet = game.ship_id_by_player[game.my_pid].len();
        let (mut crew, my_immovable) = self.enlist(game, builder, rules, Ghost(seen));
        let ghost mustered = crew@;
        let ghost enlisted = self.memory@;
        let picked_goals_pos = assign_goals(&mut crew, game, fleet, weigh);
        proof {
            assert forall|i: int| 0 <= i < crew.len() implies ((#[trigger] crew[i]).goal_type
                == GoalType::Deposit <==> mustered[i].goal_type == GoalType::Deposit) && ((
            crew[i]).goal_type == GoalType::Mine <==> crew[i].goal_type != GoalType::Deposit
                && crew[i].target == crew[i].ship.pos) && (crew[i].goal_type == GoalType::Deposit
                ==> crew[i] == mustered[i]) by {
                if mustered[i].goal_type != GoalType::Deposit {
                    assert(given_goal(mustered[i], crew[i]));
                    let g = choose|g: Goal| crew[i] == #[trigger] assigned(mustered[i], g);
                    assert(crew[i] == assigned(mustered[i], g));
                }
            }
            assert forall|i: int| 0 <= i < crew.len() implies enlisted.contains_key(
                (#[trigger] crew[i]).ship.ship_id,
            ) by {
                assert(crew[i].ship == mustered[i].ship);
                assert(is_mover(*game, builder, mustered[i].ship.ship_id));
            }
        }
        let ghost picked = picked_goals_pos@;
        self.add_dropoff_candidates(game, picked_goals_pos, rules.dropoff_spacing);
        let ghost sites = choose|added: Seq<DropoffCandidate>, leads: Seq<int>|
            {
                &&& #[trigger] game.sites_found(
                    firsts(picked),
                    rules.dropoff_spacing as int,
                    opened.dropoff_candidates@,
                    added,
                    leads,
                )
                &&& self.dropoff_candidates@ == opened.dropoff_candidates@ + added
            };
        remember(&mut self.memory, &crew);
        proof {
            lemma_memory_kept(*game, seen, enlisted, self.memory@, mustered, crew@);
            assert(builder_chosen(
                *game,
                opened.dropoff_candidates@,
                rules.dropoff_spacing as int,
                builder,
            ));
            assert(prepared(
                *game,
                *old(self),
                *self,
                *weigh,
                crew@,
                my_immovable@,
                builder,
                picked,
                sites.0,
                sites.1,
            ));
            lemma_crew_facts(*game, builder, seen, old(self).endgame, mustered, crew@, self.memory@);
        }
        let ghost sailors = crew@;
        let ghost resting = my_immovable@;
        let m = Muster { crew, idle: my_immovable, builder, funds };
        proof {
            assert(m.crew@ == sailors && m.idle@ == resting && m.builder == builder);
            assert(prepared(
                *game,
                *old(self),
                *self,
                *weigh,
                m.crew@,
                m.idle@,
                m.builder,
                picked,
                sites.0,
                sites.1,
            ));
        }
        m
    }
}

/// What passes a test is in the filtered list, and what is in the filtered
/// list is of the list and passes the test.
pub proof fn lemma_filter_members<A>(s: Seq<A>, f: spec_fn(A) -> bool)
    ensures
        forall|a: A| #[trigger] s.filter(f).contains(a) <==> s.contains(a) && f(a),
    decreases s.len(),
{
    reveal(Seq::filter);
    if s.len() > 0 {
        let t = s.drop_last();
        lemma_filter_members(t, f);
        assert forall|a: A| #[trigger] s.filter(f).contains(a) <==> s.contains(a) && f(a) by {
            let last = s.last();
            if s.filter(f).contains(a) {
                let k = choose|k: int| 0 <= k < s.filter(f).len() && s.filter(f)[k] == a;
                if f(last) && k == s.filter(f).len() - 1 {
                    assert(s[s.len() - 1] == a);
                } else {
                    assert(t.filter(f)[k] == a);
                    assert(t.filter(f).contains(a));
                    let j = choose|j: int| 0 <= j < t.len() && t[j] == a;
                    assert(s[j] == a);
                }
            }
            if s.contains(a) && f(a) {
                let j = choose|j: int| 0 <= j < s.len() && s[j] == a;
                if j < t.len() {
                    assert(t[j] == a);
                    assert(t.contains(a));
                    assert(t.filter(f).contains(a));
                    let k = choose|k: int| 0 <= k < t.filter(f).len() && t.filter(f)[k] == a;
                    assert(s.filter(f)[k] == a);
                } else {
                    assert(s.filter(f)[s.filter(f).len() - 1] == a);
                }
            }
        }
    } else {
        assert(s.filter(f) =~= Seq::<A>::empty());
    }
}

/// Filtering a list without repetitions leaves no repetitions.
#[verifier::spinoff_prover]
pub proof fn lemma_filter_distinct<A>(s: Seq<A>, f: spec_fn(A) -> bool)
    requires
        s.no_duplicates(),
    ensures
        s.filter(f).no_duplicates(),
    decreases s.len(),
{
    reveal(Seq::filter);
    if s.len() > 0 {
        let t = s.drop_last();
        assert(t.no_duplicates()) by {
            assert forall|i: int, j: int| 0 <= i < t.len() && 0 <= j < t.len() && i != j implies t[i]
                != t[j] by {
                assert(s[i] != s[j]);
            }
        }
        lemma_filter_distinct(t, f);
        lemma_filter_members(t, f);
        if f(s.last()) {
            assert(!t.contains(s.last())) by {
                if t.contains(s.last()) {
                    let j = choose|j: int| 0 <= j < t.len() && t[j] == s.last();
                    assert(s[j] == s[s.len() - 1]);
                }
            }
            let r = s.filter(f);
            assert forall|i: int, j: int| 0 <= i < r.len() && 0 <= j < r.len() && i != j implies r[i]
                != r[j] by {
                if i < r.len() - 1 && j < r.len() - 1 {
                    assert(t.filter(f)[i] != t.filter(f)[j]);
                } else if i < r.len() - 1 {
                    assert(t.filter(f).contains(t.filter(f)[i]));
                } else {
                    assert(t.filter(f).contains(t.filter(f)[j]));
                }
            }
        }
    }
}

/// The entries with which the sailors of a crew queue for their moves.
pub open spec fn queue_of(game: Game, crew: Seq<Sailor>) -> Seq<ShipPriority> {
    Seq::new(
        crew.len(),
        |i: int|
            ShipPriority {
                id: crew[i].ship.ship_id,
                w: move_priority(game, crew[i].ship, crew[i].goal_type, crew[i].target) as i64,
            },
    )
}

/// The movers are the sailors of the crew in the order in which they are
/// served, each with its five moves as the search and the threats give them.
pub open spec fn movers_built<T: Fn(ThreatTerms) -> i64>(
    game: Game,
    crew: Seq<Sailor>,
    order: Seq<usize>,
    forecast: GMap<usize>,
    threat: T,
    movers: Seq<Mover>,
) -> bool {
    &&& service_order(queue_of(game, crew), order)
    &&& movers.len() == order.len()
    &&& forall|u: int|
        0 <= u < movers.len() ==> (#[trigger] movers[u]).id == crew[order[u] as int].ship.ship_id
    &&& forall|u: int, m: int|
        0 <= u < movers.len() && 0 <= m < 5 ==> candidate_ok(
            game,
            crew[order[u] as int],
            forecast,
            threat,
            m,
            #[trigger] movers[u].candidates[m],
        )
}

/// Whether a new ship is built: the shipyard is free, the match has long
/// enough to run, and the reserve left once a deposit site is paid for buys a
/// ship and, while the planner is saving for a site, the site as well.
pub open spec fn spawns(
    game: Game,
    endgame: bool,
    saving: bool,
    commands: Map<usize, ShipCommand>,
    builder: Option<usize>,
) -> bool {
    &&& !cell_taken(game, endgame, commands, game.factories[game.my_pid as int].pos)
    &&& game.turn_number + game.rules_for(game.my_ships().len() as int).stop_spawn_margin
        <= game.constants.max_turns
    &&& game.energy[game.my_pid as int] - (if builder.is_some() {
        game.constants.dropoff_cost as int
    } else {
        0
    }) >= game.constants.ship_cost + (if saving {
        game.constants.dropoff_cost as int
    } else {
        0
    })
}

/// A turn's plan is what the planner's steps make of the snapshot and of
/// the planner's state `before`.
///
/// The first half of the turn gives a crew with its goals, the ships
/// `idle` that cannot move, and the builder. The sailors queue for their
/// moves by priority; each is given its five moves with their costs; the
/// `targets` are the sailors' ids and goals in the order of the queue. The
/// moves are settled in two rounds, which gives the commands and the ships
/// that `failed` to find a move.
pub open spec fn planned<W: Fn(GoalTerms) -> i64, T: Fn(ThreatTerms) -> i64>(
    game: Game,
    before: Logic,
    after: Logic,
    forecast: GMap<usize>,
    weigh: W,
    threat: T,
    spawn: bool,
    commands: Map<usize, ShipCommand>,
    failed: Seq<usize>,
    targets: Seq<(usize, Point)>,
    builder: Option<usize>,
) -> bool {
    &&& spawn == spawns(game, after.endgame, after.saving_for_dropoff, commands, builder)
    &&& exists|
        crew: Seq<Sailor>,
        order: Seq<usize>,
        movers: Seq<Mover>,
        idle: Seq<usize>,
        picked: Seq<Point>,
        added: Seq<DropoffCandidate>,
        leads: Seq<int>,
        start: Board,
        first: Board,
        pass: FirstPass,
        boards: Seq<Board>,
        picks: Seq<Option<usize>>,
    |
        {
            &&& crew_ok(game, crew)
            &&& #[trigger] prepared(
                game,
                before,
                after,
                weigh,
                crew,
                idle,
                builder,
                picked,
                added,
                leads,
            )
            &&& #[trigger] movers_built(game, crew, order, forecast, threat, movers)
            &&& targets == Seq::new(
                order.len(),
                |u: int| (crew[order[u] as int].ship.ship_id, crew[order[u] as int].target),
            )
            &&& #[trigger] settled(
                game,
                after.endgame,
                idle,
                builder,
                movers,
                commands,
                failed,
                start,
                first,
                pass,
                boards,
                picks,
            )
        }
}

impl Logic {
    /// Plans a turn: what every own ship is to do, and whether a new ship
    /// is to be built.
    ///
    /// `enemy_forecast` holds for every cell the chance in percent that a
    /// hostile ship ends the turn there; nothing is expected where it holds
    /// 0. `weigh` turns the terms of a trip into its worth, and `threat` the
    /// terms of a threat into the cost that it adds to a move.
    #[verifier::spinoff_prover]
    pub fn plan_turn<W: Fn(GoalTerms) -> i64, T: Fn(ThreatTerms) -> i64>(
        &mut self,
        game: &Game,
        enemy_forecast: &GMap<usize>,
        weigh: W,
        threat: T,
    ) -> (plan: TurnPlan)
        requires
            game.wf(),
            old(self).wf(*game),
            enemy_forecast.wf(game.w(), game.h()),
            forall|t: GoalTerms| #[trigger] weigh.requires((t,)),
            forall|t: ThreatTerms| #[trigger] threat.requires((t,)),
        ensures
            final(self).wf(*game),
            old(self).endgame ==> final(self).endgame,
            forall|id: usize| #[trigger] final(self).memory@.contains_key(id) <==> game.my_ships().contains(id),
            forall|id: usize|
                game.my_ships().contains(id) ==> (#[trigger] final(self).memory@[id]).prev_pos
                    == game.ships@[id].pos,
            moves_apart(*game, final(self).endgame, plan.commands@),
            forall|id: usize| #[trigger] plan.commands@.contains_key(id) ==> game.my_ships().contains(id),
            forall|id: usize| #[trigger]
                is_idle(*game, plan.builder, id) ==> plan.commands@.contains_key(id)
                    && plan.commands@[id] == ShipCommand::MoveShip(Direction::Still),
            plan.builder matches Some(b) ==> game.my_ships().contains(b) && plan.commands@.contains_key(
                b,
            ) && plan.commands@[b] == ShipCommand::MakeDropoff(),
            forall|id: usize|
                is_mover(*game, plan.builder, id) ==> (#[trigger] plan.commands@.contains_key(id)
                    <==> !plan.failed@.contains(id)),
            forall|id: usize|
                is_mover(*game, plan.builder, id) && #[trigger] plan.commands@.contains_key(id)
                    ==> exists|d: Direction| plan.commands@[id] == ShipCommand::MoveShip(d),
            forall|k: int|
                0 <= k < plan.targets.len() ==> is_mover(
                    *game,
                    plan.builder,
                    (#[trigger] plan.targets[k]).0,
                ) && game.contains(plan.targets[k].1),
            forall|id: usize|
                is_mover(*game, plan.builder, id) ==> exists|k: int|
                    0 <= k < plan.targets.len() && (#[trigger] plan.targets[k]).0 == id,
            forall|k: int|
                0 <= k < plan.targets.len() ==> intent_ok(
                    *game,
                    final(self).memory@[(#[trigger] plan.targets[k]).0].goal_type,
                    game.ships@[plan.targets[k].0],
                    plan.targets[k].1,
                ),
            planned(
                *game,
                *old(self),
                *final(self),
                *enemy_forecast,
                weigh,
                threat,
                plan.spawn,
                plan.commands@,
                plan.failed@,
                plan.targets@,
                plan.builder,
            ),
    {
        let m = self.prepare(game, &weigh);
        let ghost prep = choose|picked: Seq<Point>, added: Seq<DropoffCandidate>, leads: Seq<int>| #[trigger]
            prepared(
                *game,
                *old(self),
                *self,
                weigh,
                m.crew@,
                m.idle@,
                m.builder,
                picked,
                added,
                leads,
            );
        let crew = m.crew;
        let entries = crew_entries(game, &crew);
        let order = order_by_priority(&entries);
        let movers = build_movers(game, &crew, &order, enemy_forecast, &threat);
        let mut targets: Vec<(usize, Point)> = Vec::new();
        let mut u: usize = 0;
        while u < order.len()
            invariant
                u <= order.len(),
                targets.len() == u,
                forall|v: int| 0 <= v < order.len() ==> (#[trigger] order[v]) < crew.len(),
                forall|v: int|
                    0 <= v < u ==> (#[trigger] targets[v]) == (
                        crew[order[v] as int].ship.ship_id,
                        crew[order[v] as int].target,
                    ),
            decreases order.len() - u,
        {
            let sailor = crew[order[u]];
            targets.push((sailor.ship.ship_id, sailor.target));
            u += 1;
        }
        proof {
            assert(movers_ok(*game, movers@)) by {
                assert forall|a: int, b: int| 0 <= a < b < movers.len() implies movers[a].id
                    != movers[b].id by {
                    assert(crate::fleet::served_before(
                        entries@,
                        order[a] as int,
                        order[b] as int,
                    ));
                    assert(order[a] != order[b]);
                    let x = order[a] as int;
                    let y = order[b] as int;
                    if x < y {
                        assert(crew[x].ship.ship_id != crew[y].ship.ship_id);
                    } else {
                        assert(crew[y].ship.ship_id != crew[x].ship.ship_id);
                    }
                }
                assert forall|a: int, k: int|
                    0 <= a < movers.len() && 0 <= k < 5 implies (#[trigger] movers[a].candidates[k]).pos
                    == game.around(game.ships@[movers[a].id].pos)[k] by {
                    assert(candidate_ok(
                        *game,
                        crew[order[a] as int],
                        *enemy_forecast,
                        threat,
                        k,
                        movers[a].candidates[k],
                    ));
                }
            }
            assert forall|i: int, a: int|
                0 <= i < m.idle.len() && 0 <= a < movers.len() implies (#[trigger] m.idle[i])
                != (#[trigger] movers[a]).id by {
                assert(is_idle(*game, m.builder, m.idle[i]));
                assert(is_mover(*game, m.builder, crew[order[a] as int].ship.ship_id));
            }
            assert forall|i: int| 0 <= i < m.idle.len() implies game.ships@.contains_key(
                #[trigger] m.idle[i],
            ) && m.builder != Some(m.idle[i]) by {
                assert(is_idle(*game, m.builder, m.idle[i]));
                let id = m.idle[i];
                let j = choose|j: int| 0 <= j < game.my_ships().len() && game.my_ships()[j] == id;
                assert(game.ships@.contains_key(game.roster(game.my_pid as int)[j]));
            }
            assert forall|a: int| 0 <= a < movers.len() implies m.builder != Some(
                (#[trigger] movers[a]).id,
            ) by {
                assert(is_mover(*game, m.builder, crew[order[a] as int].ship.ship_id));
            }
        }
        let (commands, failed, forbidden) = settle(game, self.endgame, &m.idle, m.builder, &movers);
        let ghost rounds = choose|
            start: Board,
            first: Board,
            pass: FirstPass,
            boards: Seq<Board>,
            picks: Seq<Option<usize>>,
        | #[trigger]
            settled(
                *game,
                self.endgame,
                m.idle@,
                m.builder,
                movers@,
                commands@,
                failed@,
                start,
                first,
                pass,
                boards,
                picks,
            );
        proof {
            assert(entries@ =~= queue_of(*game, crew@));
            assert(movers_built(*game, crew@, order@, *enemy_forecast, threat, movers@));
            assert(targets@ =~= Seq::new(
                order@.len(),
                |u: int| (crew@[order@[u] as int].ship.ship_id, crew@[order@[u] as int].target),
            ));
        }
        let my_factory = game.factories[game.my_pid];
        assert(game.contains(game.factories[game.my_pid as int].pos));
        let rules = game.turn_rules(game.ship_id_by_player[game.my_pid].len());
        let reserve: u128 = game.constants.ship_cost as u128 + if self.saving_for_dropoff {
            game.constants.dropoff_cost as u128
        } else {
            0
        };
        let spawn = !*forbidden.get(my_factory.pos) && (game.turn_number as u128)
            + (rules.stop_spawn_margin as u128) <= game.constants.max_turns as u128 && (
        m.funds as u128) >= reserve;
        proof {
            assert forall|id: usize| #[trigger] commands@.contains_key(id) implies game.my_ships().contains(
                id,
            ) by {
                if m.idle@.contains(id) {
                    let i = choose|i: int| 0 <= i < m.idle@.len() && m.idle@[i] == id;
                    assert(is_idle(*game, m.builder, m.idle[i]));
                } else if m.builder == Some(id) {
                } else {
                    let a = choose|a: int| 0 <= a < movers.len() && (#[trigger] movers[a]).id == id;
                    assert(is_mover(*game, m.builder, crew[order[a] as int].ship.ship_id));
                }
            }
            assert forall|id: usize| #[trigger]
                is_idle(*game, m.builder, id) implies commands@.contains_key(id) && commands@[id]
                == ShipCommand::MoveShip(Direction::Still) by {
                assert(m.idle@.contains(id));
                let i = choose|i: int| 0 <= i < m.idle@.len() && m.idle@[i] == id;
                assert(commands@.contains_key(m.idle[i]));
            }
            // every mover is one of the queue, and the queue lists every sailor
            assert forall|id: usize| is_mover(*game, m.builder, id) implies exists|a: int|
                0 <= a < movers.len() && (#[trigger] movers[a]).id == id && targets[a].0 == id by {
                let i = choose|i: int| 0 <= i < crew.len() && (#[trigger] crew[i]).ship.ship_id == id;
                assert(order@.contains(i as usize));
                let a = choose|a: int| 0 <= a < order@.len() && order@[a] == i as usize;
                assert(movers[a].id == crew[order[a] as int].ship.ship_id);
                assert(targets[a].0 == id);
            }
            assert forall|id: usize| is_mover(*game, m.builder, id) implies ((
            #[trigger] commands@.contains_key(id)) <==> !failed@.contains(id)) && (
            commands@.contains_key(id) ==> exists|d: Direction|
                commands@[id] == ShipCommand::MoveShip(d)) by {
                let a = choose|a: int|
                    0 <= a < movers.len() && (#[trigger] movers[a]).id == id && targets[a].0 == id;
                assert(commands@.contains_key(movers[a].id) <==> !failed@.contains(movers[a].id));
            }
            assert forall|k: int| 0 <= k < targets.len() implies is_mover(
                *game,
                m.builder,
                (#[trigger] targets[k]).0,
            ) && game.contains(targets[k].1) && intent_ok(
                *game,
                self.memory@[targets[k].0].goal_type,
                game.ships@[targets[k].0],
                targets[k].1,
            ) by {
                let i = order[k] as int;
                assert(targets[k] == (crew[i].ship.ship_id, crew[i].target));
                assert(is_mover(*game, m.builder, crew[i].ship.ship_id));
                assert(game.contains(crew[i].target));
                assert(self.memory@[crew[i].ship.ship_id].goal_type == crew[i].goal_type);
                assert(game.ships@[crew[i].ship.ship_id] == crew[i].ship);
            }
        }
        let ghost issued = commands@;
        let ghost names = failed@;
        let ghost bound = targets@;
        let plan = TurnPlan { spawn, commands, failed, targets, builder: m.builder };
        proof {
            assert(plan.commands@ == issued && plan.failed@ == names && plan.targets@ == bound);
            assert(settled(
                *game,
                self.endgame,
                m.idle@,
                plan.builder,
                movers@,
                plan.commands@,
                plan.failed@,
                rounds.0,
                rounds.1,
                rounds.2,
                rounds.3,
                rounds.4,
            ));
            assert(prepared(
                *game,
                *old(self),
                *self,
                weigh,
                crew@,
                m.idle@,
                plan.builder,
                prep.0,
                prep.1,
                prep.2,
            ));
            assert(plan.spawn == spawns(
                *game,
                self.endgame,
                self.saving_for_dropoff,
                plan.commands@,
                plan.builder,
            ));
            assert(planned(
                *game,
                *old(self),
                *self,
                *enemy_forecast,
                weigh,
                threat,
                plan.spawn,
                plan.commands@,
                plan.failed@,
                plan.targets@,
                plan.builder,
            ));
        }
        plan
    }

    /// Plans a turn and gives what the game is to be told: whether a new
    /// ship is to be built, and the command of every ship that has one.
    #[verifier::spinoff_prover]
    pub fn make_moves<W: Fn(GoalTerms) -> i64, T: Fn(ThreatTerms) -> i64>(
        &mut self,
        game: &Game,
        enemy_forecast: &GMap<usize>,
        weigh: W,
        threat: T,
    ) -> (r: (bool, HashMap<usize, ShipCommand>))
        requires
            game.wf(),
            old(self).wf(*game),
            enemy_forecast.wf(game.w(), game.h()),
            forall|t: GoalTerms| #[trigger] weigh.requires((t,)),
            forall|t: ThreatTerms| #[trigger] threat.requires((t,)),
        ensures
            final(self).wf(*game),
            old(self).endgame ==> final(self).endgame,
            forall|id: usize| #[trigger] final(self).memory@.contains_key(id) <==> game.my_ships().contains(id),
            forall|id: usize|
                game.my_ships().contains(id) ==> (#[trigger] final(self).memory@[id]).prev_pos
                    == game.ships@[id].pos,
            moves_apart(*game, final(self).endgame, r.1@),
            forall|id: usize| #[trigger] r.1@.contains_key(id) ==> game.my_ships().contains(id),
            forall|id: usize|
                game.my_ships().contains(id) && #[trigger] cannot_move(*game, game.ships@[id])
                    ==> r.1@.contains_key(id) && (r.1@[id] == ShipCommand::MoveShip(
                    Direction::Still,
                ) || r.1@[id] == ShipCommand::MakeDropoff()),
            forall|a: usize, b: usize|
                r.1@.contains_key(a) && r.1@.contains_key(b) && #[trigger] r.1@[a]
                    == ShipCommand::MakeDropoff() && #[trigger] r.1@[b] == ShipCommand::MakeDropoff()
                    ==> a == b,
            exists|failed: Seq<usize>, targets: Seq<(usize, Point)>, builder: Option<usize>| #[trigger]
                planned(
                    *game,
                    *old(self),
                    *final(self),
                    *enemy_forecast,
                    weigh,
                    threat,
                    r.0,
                    r.1@,
                    failed,
                    targets,
                    builder,
                ),
    {
        let plan = self.plan_turn(game, enemy_forecast, weigh, threat);
        proof {
            assert(planned(
                *game,
                *old(self),
                *self,
                *enemy_forecast,
                weigh,
                threat,
                plan.spawn,
                plan.commands@,
                plan.failed@,
                plan.targets@,
                plan.builder,
            ));
            assert forall|id: usize|
                game.my_ships().contains(id) && #[trigger] cannot_move(
                    *game,
                    game.ships@[id],
                ) implies plan.commands@.contains_key(id) && (plan.commands@[id]
                == ShipCommand::MoveShip(Direction::Still) || plan.commands@[id]
                == ShipCommand::MakeDropoff()) by {
                if plan.builder != Some(id) {
                    assert(is_idle(*game, plan.builder, id));
                }
            }
            assert forall|a: usize, b: usize|
                plan.commands@.contains_key(a) && plan.commands@.contains_key(b)
                    && #[trigger] plan.commands@[a] == ShipCommand::MakeDropoff()
                    && #[trigger] plan.commands@[b] == ShipCommand::MakeDropoff() implies a == b by {
                lemma_one_builder(*game, plan.builder, plan.commands@, a);
                lemma_one_builder(*game, plan.builder, plan.commands@, b);
            }
        }
        let ghost issued = plan.commands@;
        let ghost names = plan.failed@;
        let ghost bound = plan.targets@;
        let ghost builder = plan.builder;
        let r = (plan.spawn, plan.commands);
        proof {
            assert(r.1@ == issued);
            assert(planned(
                *game,
                *old(self),
                *self,
                *enemy_forecast,
                weigh,
                threat,
                r.0,
                r.1@,
                names,
                bound,
                builder,
            ));
        }
        r
    }
}

/// What a ship does fits where it is sent: a ship that must go home and
/// is not there is on its way home; a ship on its way home is bound for the
/// nearest deposit site; and a ship mines just when it is bound for the cell
/// it is on and is not on its way home.
pub open spec fn intent_ok(game: Game, goal_type: GoalType, ship: Ship, target: Point) -> bool {
    &&& ship.halite >= 950 && !game.is_home(ship.pos) ==> goal_type == GoalType::Deposit
    &&& goal_type == GoalType::Deposit ==> target == game.my_drop_pts[game.nearest_drop_pt_idx.at_pos(
        ship.pos,
    ) as int]
    &&& goal_type == GoalType::Mine <==> goal_type != GoalType::Deposit && target == ship.pos
}

/// Only the builder is told to build.
pub proof fn lemma_one_builder(
    game: Game,
    builder: Option<usize>,
    commands: Map<usize, ShipCommand>,
    a: usize,
)
    requires
        commands.contains_key(a),
        commands[a] == ShipCommand::MakeDropoff(),
        game.my_ships().contains(a),
        forall|id: usize| #[trigger]
            is_idle(game, builder, id) ==> commands.contains_key(id) && commands[id]
                == ShipCommand::MoveShip(Direction::Still),
        forall|id: usize|
            is_mover(game, builder, id) && #[trigger] commands.contains_key(id) ==> exists|
                d: Direction,
            | commands[id] == ShipCommand::MoveShip(d),
    ensures
        builder == Some(a),
{
    if builder != Some(a) {
        if cannot_move(game, game.ships@[a]) {
            assert(is_idle(game, builder, a));
        } else {
            assert(is_mover(game, builder, a));
        }
    }
}

} // verus!
