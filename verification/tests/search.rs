use my_bot::{Constants, Direction, GMap, Game, Point};

fn rules() -> Constants {
    Constants { max_turns: 400, ship_cost: 1000, dropoff_cost: 4000, max_halite: 1000 }
}

fn game_with(rows: Vec<Vec<usize>>) -> Game {
    let side = rows.len();
    let mut lines: Vec<Vec<usize>> = vec![vec![0, 0, 0], vec![side, side]];
    lines.extend(rows);
    Game::init(&lines, rules(), 1, 0).unwrap()
}

fn pt(x: isize, y: isize) -> Point {
    Point { x, y }
}

#[test]
fn scores_on_an_empty_grid_are_the_steps_to_the_target() {
    let game = game_with(vec![vec![0; 8]; 8]);
    let scores = game.backwards_a_star_scores(pt(1, 1), pt(4, 1), 100);
    assert_eq!(scores.len(), 5);
    assert_eq!(scores[0], (pt(1, 0), Direction::North, 400));
    assert_eq!(scores[1], (pt(2, 1), Direction::East, 200));
    assert_eq!(scores[2], (pt(1, 2), Direction::South, 400));
    assert_eq!(scores[3], (pt(0, 1), Direction::West, 400));
    assert_eq!(scores[4], (pt(1, 1), Direction::Still, 300));
}

#[test]
fn scores_count_what_the_cells_on_the_way_hold() {
    let mut rows = vec![vec![0; 4]; 4];
    rows[0][1] = 7;
    rows[0][2] = 50;
    let game = game_with(rows);
    // from the target (3,0) to (1,0): through (2,0) costs 10 + 50 + 10 + 7,
    // round the other way through (0,0) costs 10 + 0 + 10 + 7
    let scores = game.backwards_a_star_scores(pt(1, 0), pt(3, 0), 10);
    assert_eq!(scores[4], (pt(1, 0), Direction::Still, 27));
    assert_eq!(scores[1], (pt(2, 0), Direction::East, 60));
    assert_eq!(scores[3], (pt(0, 0), Direction::West, 10));
}

#[test]
fn scores_of_a_ship_on_its_target_start_at_nothing() {
    let game = game_with(vec![vec![3; 4]; 4]);
    let scores = game.backwards_a_star_scores(pt(2, 2), pt(2, 2), 100);
    assert_eq!(scores[4].2, 0);
    for m in 0..4 {
        assert_eq!(scores[m].2, 103);
    }
}

#[test]
fn lone_ship_heads_for_its_target_and_minds_forbidden_cells() {
    let game = game_with(vec![vec![0; 8]; 8]);
    let mut forbidden = GMap::filled(8, 8, false);
    assert_eq!(game.backwards_a_star(pt(1, 1), pt(4, 1), &forbidden), (pt(2, 1), Direction::East));
    forbidden.set(pt(2, 1), true);
    // the step east is barred: standing still is next best
    assert_eq!(game.backwards_a_star(pt(1, 1), pt(4, 1), &forbidden), (pt(1, 1), Direction::Still));
}

#[test]
fn lone_ship_on_its_target_moves_to_the_richest_cell_around() {
    let mut rows = vec![vec![0; 8]; 8];
    rows[3][3] = 10;
    rows[3][4] = 60000;
    let game = game_with(rows);
    let forbidden = GMap::filled(8, 8, false);
    // staying scores -40, the step east 100000 + 60000 - 240000
    assert_eq!(game.backwards_a_star(pt(3, 3), pt(3, 3), &forbidden), (pt(4, 3), Direction::East));
}

#[test]
fn search_reads_back_the_cheapest_way() {
    let mut rows = vec![vec![5; 8]; 8];
    rows[2][2] = 900;
    rows[2][3] = 1;
    rows[3][2] = 2;
    let game = game_with(rows);
    // from (2,1) to (2,3) the straight way passes (2,2), which holds 900;
    // no way round is as short, so the straight way is taken
    assert_eq!(game.halite_between(pt(2, 1), pt(2, 3)), 900);
    // from (1,2) to (3,3) the cheapest of the three shortest ways passes
    // (1,3), which holds 5, and (2,3), which holds 2
    assert_eq!(game.halite_between(pt(1, 2), pt(3, 3)), 5 + 2);
}
