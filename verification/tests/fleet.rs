use my_bot::fleet::{
    order_by_priority, recall, ship_priority, split_fleet, update_goal_types, ShipMemory, TurnRules,
};
use my_bot::{
    CellPriority, CellPriorityMax, Constants, Game, GoalType, Point, Ship, ShipPriority, Target,
};
use std::collections::HashMap;

fn rules() -> Constants {
    Constants { max_turns: 400, ship_cost: 1000, dropoff_cost: 4000, max_halite: 1000 }
}

fn pt(x: isize, y: isize) -> Point {
    Point { x, y }
}

/// A game of `players` players on a grid of side 16; the own ships and
/// those of player 1 are given as (id, x, y, cargo).
fn game_of(
    players: usize,
    rows: Vec<Vec<usize>>,
    turn: usize,
    mine: Vec<(usize, usize, usize, usize)>,
    theirs: Vec<(usize, usize, usize, usize)>,
) -> Game {
    let side = rows.len();
    let mut lines: Vec<Vec<usize>> = Vec::new();
    for p in 0..players {
        lines.push(vec![p, 2 + 3 * p, 2]);
    }
    lines.push(vec![side, side]);
    lines.extend(rows);
    let mut game = Game::init(&lines, rules(), players, 0).unwrap();
    let mut frame: Vec<Vec<usize>> = vec![vec![turn + 1], vec![0, mine.len(), 0, 0]];
    for s in mine.iter() {
        frame.push(vec![s.0, s.1, s.2, s.3]);
    }
    for p in 1..players {
        let ships = if p == 1 { theirs.clone() } else { vec![] };
        frame.push(vec![p, ships.len(), 0, 0]);
        for s in ships.iter() {
            frame.push(vec![s.0, s.1, s.2, s.3]);
        }
    }
    frame.push(vec![0]);
    game.update_frame(&frame).unwrap();
    game
}

fn empty_rows() -> Vec<Vec<usize>> {
    vec![vec![0; 16]; 16]
}

#[test]
fn the_rules_of_a_turn_depend_on_the_match() {
    let two = game_of(2, empty_rows(), 10, vec![], vec![]);
    assert_eq!(
        two.turn_rules(0),
        TurnRules { turns_left: 390, dropoff_spacing: 15, endgame_margin: 3, stop_spawn_margin: 200 }
    );
    let four = game_of(4, empty_rows(), 10, vec![], vec![]);
    assert_eq!(
        four.turn_rules(0),
        TurnRules { turns_left: 390, dropoff_spacing: 11, endgame_margin: 5, stop_spawn_margin: 225 }
    );
    // on the turn twice the side before the end a large fleet gets more margin
    let marked = game_of(2, empty_rows(), 400 - 32, vec![], vec![]);
    assert_eq!(marked.turn_rules(30).endgame_margin, 3);
    assert_eq!(marked.turn_rules(31).endgame_margin, 5);
    assert_eq!(marked.turn_rules(51).endgame_margin, 6);
    let after = game_of(2, empty_rows(), 400 - 31, vec![], vec![]);
    assert_eq!(after.turn_rules(51).endgame_margin, 3);
}

#[test]
fn a_ship_counts_as_stuck_while_it_stays_with_an_enemy_close() {
    let near = game_of(2, empty_rows(), 10, vec![(1, 8, 8, 0), (2, 12, 12, 0)], vec![(9, 9, 9, 0)]);
    let first = recall(&near, &HashMap::new());
    assert_eq!(
        first[&1],
        ShipMemory { goal_type: GoalType::Mine, turns_stuck: 0, prev_pos: pt(8, 8) }
    );
    assert!(near.is_enemy_near(pt(8, 8)));
    assert!(!near.is_enemy_near(pt(12, 12)));
    let second = recall(&near, &first);
    assert_eq!(second[&1].turns_stuck, 1);
    assert_eq!(second[&2].turns_stuck, 0);
    let third = recall(&near, &second);
    assert_eq!(third[&1].turns_stuck, 2);
    // the ship moves: no longer stuck; a ship that is gone is forgotten
    let moved = game_of(2, empty_rows(), 11, vec![(1, 8, 7, 0)], vec![(9, 9, 9, 0)]);
    let fourth = recall(&moved, &third);
    assert_eq!(fourth[&1].turns_stuck, 0);
    assert_eq!(fourth[&1].prev_pos, pt(8, 7));
    assert!(!fourth.contains_key(&2));
    assert_eq!(fourth.len(), 1);
}

#[test]
fn own_ships_close_by_do_not_make_a_ship_stuck() {
    let game = game_of(2, empty_rows(), 10, vec![(1, 8, 8, 0), (2, 8, 9, 0)], vec![(9, 11, 8, 0)]);
    let first = recall(&game, &HashMap::new());
    let second = recall(&game, &first);
    assert_eq!(second[&1].turns_stuck, 0);
}

#[test]
fn the_fleet_is_split_by_what_leaving_costs() {
    let mut rows = empty_rows();
    rows[8][8] = 105; // leaving costs 10
    rows[9][9] = 99; // leaving costs 9
    let game =
        game_of(2, rows, 10, vec![(1, 8, 8, 9), (2, 8, 8 + 1, 0), (3, 9, 9, 9), (4, 3, 3, 5)], vec![]);
    assert_eq!(split_fleet(&game, None), (vec![2, 3, 4], vec![1]));
    assert_eq!(split_fleet(&game, Some(3)), (vec![2, 4], vec![1]));
    assert_eq!(split_fleet(&game, Some(1)), (vec![2, 3, 4], vec![]));
}

fn memory_of(entries: Vec<(usize, GoalType)>) -> HashMap<usize, ShipMemory> {
    entries
        .into_iter()
        .map(|(id, goal_type)| (id, ShipMemory { goal_type, turns_stuck: 0, prev_pos: pt(0, 0) }))
        .collect()
}

#[test]
fn ships_decide_what_they_do_next() {
    let mut rows = empty_rows();
    rows[8][8] = 101; // rich: more than a tenth of a full cargo
    rows[9][9] = 100; // poor
    let mine = vec![
        (1, 8, 8, 0),   // on its way to a mine, on a rich cell: mines
        (2, 9, 9, 0),   // mining a poor cell: moves on
        (3, 8, 9, 950), // full: turns home
        (4, 2, 2, 0),   // home after depositing: goes mining
        (5, 5, 5, 10),  // on its way home and not there: goes on
        (6, 9, 8, 949), // not quite full
    ];
    let game = game_of(2, rows, 10, mine, vec![]);
    let mut memory = memory_of(vec![
        (1, GoalType::TowardsMine),
        (2, GoalType::Mine),
        (3, GoalType::Mine),
        (4, GoalType::Deposit),
        (5, GoalType::Deposit),
        (6, GoalType::TowardsMine),
    ]);
    let mut endgame = false;
    let turn_rules = game.turn_rules(6);
    update_goal_types(&mut memory, &mut endgame, &game, &vec![1, 2, 3, 4, 5, 6], turn_rules);
    assert!(!endgame);
    assert_eq!(memory[&1].goal_type, GoalType::Mine);
    assert_eq!(memory[&2].goal_type, GoalType::TowardsMine);
    assert_eq!(memory[&3].goal_type, GoalType::Deposit);
    assert_eq!(memory[&4].goal_type, GoalType::TowardsMine);
    assert_eq!(memory[&5].goal_type, GoalType::Deposit);
    assert_eq!(memory[&6].goal_type, GoalType::TowardsMine);
}

#[test]
fn the_fleet_cashes_out_when_a_ship_must_leave_to_arrive() {
    // three turns left; the margin is three
    let game = game_of(2, empty_rows(), 397, vec![(1, 2, 2, 0), (2, 2, 3, 0)], vec![]);
    let mut memory = memory_of(vec![(1, GoalType::Deposit), (2, GoalType::TowardsMine)]);
    let mut endgame = false;
    update_goal_types(&mut memory, &mut endgame, &game, &vec![1, 2], game.turn_rules(2));
    assert!(endgame);
    // the ship at home stays on its way home now
    assert_eq!(memory[&1].goal_type, GoalType::Deposit);
    assert_eq!(memory[&2].goal_type, GoalType::Deposit);
    // with six turns left the ship one step from home has time
    let early = game_of(2, empty_rows(), 394, vec![(2, 2, 3, 0)], vec![]);
    let mut memory = memory_of(vec![(2, GoalType::TowardsMine)]);
    let mut endgame = false;
    update_goal_types(&mut memory, &mut endgame, &early, &vec![2], early.turn_rules(1));
    assert!(!endgame);
    assert_eq!(memory[&2].goal_type, GoalType::TowardsMine);
}

#[test]
fn priorities_follow_the_formula() {
    let mut rows = empty_rows();
    rows[5][6] = 400;
    let game = game_of(2, rows, 10, vec![(1, 6, 5, 730)], vec![]);
    let ship = Ship { player: 0, ship_id: 1, pos: pt(6, 5), halite: 730 };
    // seven steps from the yard on (2,2)
    assert_eq!(ship_priority(&game, &ship, GoalType::Deposit, pt(2, 2)), 21 - 300 - 73);
    assert_eq!(ship_priority(&game, &ship, GoalType::Mine, pt(6, 5)), 21 - 150 - 20);
    assert_eq!(ship_priority(&game, &ship, GoalType::TowardsMine, pt(9, 5)), 21 - 20 + 3);
    let home = Ship { player: 0, ship_id: 2, pos: pt(2, 2), halite: 0 };
    assert_eq!(ship_priority(&game, &home, GoalType::TowardsMine, pt(2, 4)), -300 + 2);
}

#[test]
fn the_queue_serves_the_least_weight_first_and_keeps_ties_in_order() {
    let entries: Vec<ShipPriority> = [5i64, -3, 5, 0, -3]
        .iter()
        .enumerate()
        .map(|(i, w)| ShipPriority { id: 100 + i, w: *w })
        .collect();
    assert_eq!(order_by_priority(&entries), vec![1, 4, 3, 0, 2]);
    assert_eq!(order_by_priority(&vec![]), Vec::<usize>::new());
    assert!(entries[1].is_before(&entries[0]));
    assert!(!entries[0].is_before(&entries[2]));
}

#[test]
fn targets_rank_by_weight_alone() {
    let light = Target { pos: pt(5, 5), w: -2 };
    let heavy = Target { pos: pt(0, 0), w: 7 };
    assert!(light.is_below(&heavy));
    assert!(!heavy.is_below(&light));
    assert!(!light.is_below(&Target { pos: pt(1, 1), w: -2 }));
    let a = CellPriority { pos: pt(0, 0), w: 3 };
    let b = CellPriority { pos: pt(1, 0), w: 4 };
    assert!(a.is_before(&b) && !b.is_before(&a));
    let c = CellPriorityMax { pos: pt(0, 0), w: 3 };
    let d = CellPriorityMax { pos: pt(1, 0), w: 4 };
    assert!(d.is_before(&c) && !c.is_before(&d));
    let mut queue = vec![b, a, CellPriority { pos: pt(2, 0), w: 3 }];
    assert_eq!(my_bot::priority::pop_least(&mut queue), a);
    assert_eq!(queue, vec![b, CellPriority { pos: pt(2, 0), w: 3 }]);
}
