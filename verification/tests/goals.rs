use my_bot::goals::{miner_goal_terms, pick_goals, GoalTerms};
use my_bot::{Constants, Game, Goal, GoalType, Point, Ship};

fn rules() -> Constants {
    Constants { max_turns: 400, ship_cost: 1000, dropoff_cost: 4000, max_halite: 1000 }
}

fn pt(x: isize, y: isize) -> Point {
    Point { x, y }
}

fn game_of(rows: Vec<Vec<usize>>, yard: (usize, usize), ships: Vec<(usize, usize, usize, usize)>) -> Game {
    let side = rows.len();
    let mut lines: Vec<Vec<usize>> = vec![vec![0, yard.0, yard.1], vec![side, side]];
    lines.extend(rows);
    let mut game = Game::init(&lines, rules(), 1, 0).unwrap();
    let mut frame: Vec<Vec<usize>> = vec![vec![1], vec![0, ships.len(), 0, 0]];
    for s in ships.iter() {
        frame.push(vec![s.0, s.1, s.2, s.3]);
    }
    frame.push(vec![0]);
    game.update_frame(&frame).unwrap();
    game
}

fn cells(goals: &Vec<Goal>) -> Vec<Point> {
    goals.iter().map(|g| g.pos).collect()
}

#[test]
fn goals_are_the_miners_cells_and_then_the_best_yields() {
    let mut rows = vec![vec![0; 4]; 4];
    rows[0][2] = 100; // (2,0), two steps from the yard: 100 / 3
    rows[1][0] = 60; // (0,1), one step: 60 / 2
    rows[3][3] = 200; // (3,3), two steps over the edges: 200 / 3
    rows[0][0] = 5000; // the yard itself does not count
    let game = game_of(rows, (0, 0), vec![(1, 1, 1, 0)]);
    let goals = pick_goals(&game, &vec![1], 4, &game.nearest_drop_pt_dist);
    assert_eq!(cells(&goals), vec![pt(1, 1), pt(3, 3), pt(2, 0), pt(0, 1)]);
}

#[test]
fn a_miner_cell_is_not_listed_again() {
    let mut rows = vec![vec![0; 4]; 4];
    rows[1][1] = 500;
    rows[2][2] = 100;
    let game = game_of(rows, (0, 0), vec![(1, 1, 1, 0)]);
    let goals = pick_goals(&game, &vec![1], 3, &game.nearest_drop_pt_dist);
    // (1,1) is the miner's; of the cells that hold nothing the first read
    // column by column is (0,1)
    assert_eq!(cells(&goals), vec![pt(1, 1), pt(2, 2), pt(0, 1)]);
}

#[test]
fn equal_yields_are_taken_in_reading_order() {
    let mut rows = vec![vec![0; 4]; 4];
    rows[1][0] = 20; // (0,1): 20 / 2
    rows[0][1] = 20; // (1,0): 20 / 2
    rows[2][0] = 30; // (0,2): 30 / 3
    let game = game_of(rows, (0, 0), vec![]);
    let goals = pick_goals(&game, &vec![], 3, &game.nearest_drop_pt_dist);
    assert_eq!(cells(&goals), vec![pt(0, 1), pt(0, 2), pt(1, 0)]);
}

#[test]
fn a_grid_too_small_is_filled_up_with_the_last_site() {
    let rows = vec![vec![1; 2]; 2];
    let game = game_of(rows, (1, 0), vec![]);
    let goals = pick_goals(&game, &vec![], 6, &game.nearest_drop_pt_dist);
    assert_eq!(
        cells(&goals),
        vec![pt(0, 0), pt(1, 1), pt(0, 1), pt(1, 0), pt(1, 0), pt(1, 0)]
    );
}

#[test]
fn more_miners_than_goals_asked_for_keeps_all_miner_cells() {
    let rows = vec![vec![1; 4]; 4];
    let game = game_of(rows, (0, 0), vec![(1, 1, 1, 0), (2, 2, 2, 0), (3, 3, 3, 0)]);
    let goals = pick_goals(&game, &vec![1, 2, 3], 2, &game.nearest_drop_pt_dist);
    assert_eq!(cells(&goals), vec![pt(1, 1), pt(2, 2), pt(3, 3)]);
}

#[test]
fn terms_of_a_trip_follow_the_formula() {
    let mut rows = vec![vec![0; 8]; 8];
    rows[1][1] = 50; // the miner's cell
    rows[1][2] = 40; // on the way out
    rows[1][3] = 30; // on the way out
    rows[1][4] = 700; // the goal
    rows[0][4] = 90; // on the way home from the goal
    rows[0][3] = 25;
    let game = game_of(rows, (2, 0), vec![(1, 1, 1, 0)]);
    let miner = Ship { player: 0, ship_id: 1, pos: pt(1, 1), halite: 0 };
    let home = game.nearest_drop_pos(pt(4, 1));
    assert_eq!(home, pt(2, 0));
    let t = miner_goal_terms(&game, &miner, pt(4, 1), GoalType::TowardsMine, home);
    // out: 40 + 30 between; home: the staircases from (4,1) to (2,0) pass
    // (3,1) and (2,1): 3 + 4, or (4,0) and (3,0): 9 + 2, or (3,1) and (3,0):
    // 3 + 2, which is the cheapest
    let out = 70;
    let back = 5;
    assert_eq!(
        t,
        GoalTerms { net_halite_x100: 80 * 700 - 10 * out - 20 * back, net_turns_x10: 12 * 3 + 9 * 3 + 10 }
    );
    // a mining ship pays for leaving a poor cell 0.23 of what it holds
    let t = miner_goal_terms(&game, &miner, pt(4, 1), GoalType::Mine, home);
    assert_eq!(t.net_halite_x100, 80 * 700 - 23 * 50 - 10 * out - 20 * back);
    // staying costs nothing and takes the way home and a turn
    let t = miner_goal_terms(&game, &miner, pt(1, 1), GoalType::Mine, home);
    assert_eq!(t, GoalTerms { net_halite_x100: 80 * 50, net_turns_x10: 9 * 2 + 10 });
}

#[test]
fn leaving_a_rich_cell_while_mining_is_dear() {
    let mut rows = vec![vec![0; 8]; 8];
    rows[1][1] = 250;
    rows[1][3] = 700;
    let game = game_of(rows, (2, 0), vec![(1, 1, 1, 500)]);
    let miner = Ship { player: 0, ship_id: 1, pos: pt(1, 1), halite: 500 };
    let t = miner_goal_terms(&game, &miner, pt(3, 1), GoalType::Mine, pt(2, 0));
    assert_eq!(t.net_halite_x100, 80 * 700 - 1_000_000 * 25);
    let t = miner_goal_terms(&game, &miner, pt(3, 1), GoalType::TowardsMine, pt(2, 0));
    assert_eq!(t.net_halite_x100, 80 * 700);
}
