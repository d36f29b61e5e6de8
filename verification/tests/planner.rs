use my_bot::bot_logic::ThreatTerms;
use my_bot::goals::GoalTerms;
use my_bot::{Constants, Direction, GMap, Game, GoalType, Logic, Point, ShipCommand};

fn rules() -> Constants {
    Constants { max_turns: 400, ship_cost: 1000, dropoff_cost: 4000, max_halite: 1000 }
}

fn pt(x: isize, y: isize) -> Point {
    Point { x, y }
}

/// A game of one player on a square grid, its shipyard on `yard`, at the
/// given turn, with the given ships (id, x, y, cargo) and reserve.
fn game_of(
    rows: Vec<Vec<usize>>,
    yard: (usize, usize),
    turn: usize,
    reserve: usize,
    ships: Vec<(usize, usize, usize, usize)>,
) -> Game {
    let side = rows.len();
    let mut lines: Vec<Vec<usize>> = vec![vec![0, yard.0, yard.1], vec![side, side]];
    lines.extend(rows);
    let mut game = Game::init(&lines, rules(), 1, 0).unwrap();
    let mut frame: Vec<Vec<usize>> = vec![vec![turn + 1], vec![0, ships.len(), 0, reserve]];
    for s in ships.iter() {
        frame.push(vec![s.0, s.1, s.2, s.3]);
    }
    frame.push(vec![0]);
    game.update_frame(&frame).unwrap();
    game
}

/// The worth of a trip: the net yield over the duration to the power of 1.4,
/// as a number that orders as the worth does.
fn weigh(t: GoalTerms) -> i64 {
    let net_halite = t.net_halite_x100 as f32 / 100.0;
    let net_turns = t.net_turns_x10 as f32 / 10.0;
    let worth = net_halite / net_turns.powf(1.4);
    let bits = worth.to_bits() as i32;
    (bits ^ (((bits >> 31) as u32) >> 1) as i32) as i64
}

fn no_threat(_t: ThreatTerms) -> i64 {
    0
}

fn lands(game: &Game, id: usize, cmd: &ShipCommand) -> Option<Point> {
    match cmd {
        ShipCommand::MoveShip(d) => Some(game.step_toward(game.ships[&id].pos, *d)),
        ShipCommand::MakeDropoff() => None,
    }
}

#[test]
fn a_lone_ship_at_home_is_sent_to_the_rich_cell() {
    let mut rows = vec![vec![0; 16]; 16];
    rows[2][7] = 900;
    let game = game_of(rows, (2, 2), 10, 0, vec![(7, 2, 2, 0)]);
    let mut logic = Logic::new();
    let forecast = GMap::filled(16, 16, 0usize);
    let plan = logic.plan_turn(&game, &forecast, weigh, no_threat);
    assert_eq!(plan.targets, vec![(7, pt(7, 2))]);
    assert!(plan.failed.is_empty());
    assert_eq!(plan.commands.len(), 1);
    assert_eq!(plan.commands[&7], ShipCommand::MoveShip(Direction::East));
    assert_eq!(logic.memory[&7].goal_type, GoalType::TowardsMine);
    assert_eq!(logic.memory[&7].prev_pos, pt(2, 2));
    assert!(!plan.spawn);
}

#[test]
fn a_ship_with_a_nearly_full_cargo_turns_home() {
    let mut rows = vec![vec![0; 16]; 16];
    // the ship sits on a rich cell and has richer ones around
    rows[8][8] = 800;
    rows[8][9] = 990;
    let game = game_of(rows, (2, 2), 10, 0, vec![(3, 8, 8, 960)]);
    let mut logic = Logic::new();
    let forecast = GMap::filled(16, 16, 0usize);
    let plan = logic.plan_turn(&game, &forecast, weigh, no_threat);
    assert_eq!(logic.memory[&3].goal_type, GoalType::Deposit);
    assert_eq!(plan.targets, vec![(3, pt(2, 2))]);
    let cmd = plan.commands[&3];
    let next = lands(&game, 3, &cmd).unwrap();
    assert!(game.dist(next, pt(2, 2)) < game.dist(pt(8, 8), pt(2, 2)));
}

#[test]
fn a_ship_that_cannot_pay_for_leaving_stands_still() {
    let mut rows = vec![vec![0; 16]; 16];
    rows[5][5] = 500;
    let game = game_of(rows, (2, 2), 10, 0, vec![(1, 5, 5, 20)]);
    let mut logic = Logic::new();
    let forecast = GMap::filled(16, 16, 0usize);
    let (spawn, commands) = logic.make_moves(&game, &forecast, weigh, no_threat);
    assert!(!spawn);
    assert_eq!(commands[&1], ShipCommand::MoveShip(Direction::Still));
}

#[test]
fn three_ships_after_one_rich_cell_do_not_collide() {
    let mut rows = vec![vec![0; 16]; 16];
    rows[8][8] = 900;
    let ships = vec![(1, 7, 8, 0), (2, 9, 8, 0), (3, 8, 7, 0)];
    let game = game_of(rows, (2, 2), 10, 0, ships);
    let mut logic = Logic::new();
    // a worth that makes the rich cell every ship's first choice; greedy
    // pairing gives it to one of them and other cells to the others
    let forecast = GMap::filled(16, 16, 0usize);
    let plan = logic.plan_turn(&game, &forecast, weigh, no_threat);
    assert!(plan.failed.is_empty());
    assert_eq!(plan.commands.len(), 3);
    let on_rich: Vec<usize> =
        [1usize, 2, 3].iter().cloned().filter(|id| {
            lands(&game, *id, &plan.commands[id]) == Some(pt(8, 8))
        }).collect();
    assert_eq!(on_rich.len(), 1);
    let dests: Vec<Point> =
        [1usize, 2, 3].iter().map(|id| lands(&game, *id, &plan.commands[id]).unwrap()).collect();
    for i in 0..3 {
        for j in 0..i {
            assert_ne!(dests[i], dests[j]);
        }
    }
    let bound_for_rich = plan.targets.iter().filter(|t| t.1 == pt(8, 8)).count();
    assert_eq!(bound_for_rich, 1);
}

#[test]
fn a_crowd_of_ships_ends_on_cells_of_its_own() {
    let mut rows = vec![vec![0; 16]; 16];
    for y in 0..16 {
        for x in 0..16 {
            rows[y][x] = (x * 37 + y * 91) % 200;
        }
    }
    rows[6][6] = 1000;
    let mut ships = Vec::new();
    let mut id = 0;
    for y in 4..9 {
        for x in 4..9 {
            // cargo chosen so that some ships cannot move and some are full
            let cargo = (id * 131) % 1000;
            ships.push((id, x, y, cargo));
            id += 1;
        }
    }
    let game = game_of(rows, (6, 6), 10, 5000, ships);
    let mut logic = Logic::new();
    let forecast = GMap::filled(16, 16, 0usize);
    let plan = logic.plan_turn(&game, &forecast, weigh, no_threat);
    let mut dests: Vec<(usize, Point)> = Vec::new();
    for (id, cmd) in plan.commands.iter() {
        dests.push((*id, lands(&game, *id, cmd).unwrap()));
    }
    assert_eq!(dests.len() + plan.failed.len(), 25);
    for i in 0..dests.len() {
        for j in 0..i {
            assert_ne!(dests[i].1, dests[j].1);
        }
    }
    // nothing is built while a ship is sent onto the shipyard
    let on_yard = dests.iter().any(|d| d.1 == pt(6, 6));
    assert_eq!(plan.spawn, !on_yard);
}

#[test]
fn ships_are_built_while_there_is_time_and_reserve() {
    let rows = vec![vec![0; 16]; 16];
    let game = game_of(rows.clone(), (2, 2), 10, 1000, vec![]);
    let mut logic = Logic::new();
    let forecast = GMap::filled(16, 16, 0usize);
    assert!(logic.make_moves(&game, &forecast, weigh, no_threat).0);
    let poor = game_of(rows.clone(), (2, 2), 10, 999, vec![]);
    assert!(!logic.make_moves(&poor, &forecast, weigh, no_threat).0);
    // two hundred turns before the end is the last turn on which to build
    let last = game_of(rows.clone(), (2, 2), 200, 1000, vec![]);
    assert!(logic.make_moves(&last, &forecast, weigh, no_threat).0);
    let late = game_of(rows, (2, 2), 201, 1000, vec![]);
    assert!(!logic.make_moves(&late, &forecast, weigh, no_threat).0);
}

#[test]
fn at_the_end_all_ships_go_home_and_may_meet_there() {
    let rows = vec![vec![0; 16]; 16];
    // three turns left: ships next to the shipyard must turn home now
    let ships = vec![(1, 1, 2, 100), (2, 3, 2, 100), (3, 2, 1, 100)];
    let game = game_of(rows, (2, 2), 397, 0, ships);
    let mut logic = Logic::new();
    let forecast = GMap::filled(16, 16, 0usize);
    let plan = logic.plan_turn(&game, &forecast, weigh, no_threat);
    assert!(logic.endgame);
    for id in [1usize, 2, 3].iter() {
        assert_eq!(logic.memory[id].goal_type, GoalType::Deposit);
        assert_eq!(lands(&game, *id, &plan.commands[id]), Some(pt(2, 2)));
    }
}

#[test]
fn a_threat_turns_a_ship_away_in_a_match_of_four() {
    let side = 16;
    let mut lines: Vec<Vec<usize>> =
        vec![vec![0, 2, 2], vec![1, 13, 2], vec![2, 2, 13], vec![3, 13, 13], vec![side, side]];
    let mut rows = vec![vec![0; side]; side];
    rows[8][10] = 900;
    lines.extend(rows);
    let mut game = Game::init(&lines, rules(), 4, 0).unwrap();
    let frame: Vec<Vec<usize>> = vec![
        vec![11],
        vec![0, 1, 0, 0],
        vec![5, 8, 8, 0],
        vec![1, 0, 0, 0],
        vec![2, 0, 0, 0],
        vec![3, 0, 0, 0],
        vec![0],
    ];
    game.update_frame(&frame).unwrap();
    let mut logic = Logic::new();
    let calm = GMap::filled(16, 16, 0usize);
    let plan = logic.plan_turn(&game, &calm, weigh, |t: ThreatTerms| 100000 * t.forecast as i64);
    assert_eq!(plan.targets, vec![(5, pt(10, 8))]);
    assert_eq!(plan.commands[&5], ShipCommand::MoveShip(Direction::East));
    let mut logic = Logic::new();
    let mut stormy = GMap::filled(16, 16, 0usize);
    stormy.set(pt(9, 8), 90);
    let plan = logic.plan_turn(&game, &stormy, weigh, |t: ThreatTerms| 100000 * t.forecast as i64);
    assert_ne!(plan.commands[&5], ShipCommand::MoveShip(Direction::East));
}

#[test]
fn a_fleet_without_ships_gets_no_commands() {
    let rows = vec![vec![5; 16]; 16];
    let game = game_of(rows, (2, 2), 10, 0, vec![]);
    let mut logic = Logic::new();
    let forecast = GMap::filled(16, 16, 0usize);
    let plan = logic.plan_turn(&game, &forecast, weigh, no_threat);
    assert!(plan.commands.is_empty());
    assert!(plan.targets.is_empty());
    assert!(plan.failed.is_empty());
    assert_eq!(plan.builder, None);
    assert!(logic.memory.is_empty());
}

#[test]
fn a_ship_that_is_gone_is_forgotten() {
    let rows = vec![vec![0; 16]; 16];
    let forecast = GMap::filled(16, 16, 0usize);
    let mut logic = Logic::new();
    let first = game_of(rows.clone(), (2, 2), 10, 0, vec![(4, 5, 5, 0), (9, 8, 8, 0)]);
    logic.plan_turn(&first, &forecast, weigh, no_threat);
    assert_eq!(logic.memory.len(), 2);
    let second = game_of(rows, (2, 2), 11, 0, vec![(9, 8, 9, 0)]);
    logic.plan_turn(&second, &forecast, weigh, no_threat);
    assert_eq!(logic.memory.len(), 1);
    assert!(logic.memory.contains_key(&9));
    assert_eq!(logic.memory[&9].prev_pos, pt(8, 9));
}
