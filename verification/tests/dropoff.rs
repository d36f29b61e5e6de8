use my_bot::dropoff::{choose_dropoff_ship, prune_candidates};
use my_bot::{Constants, DropoffCandidate, Game, Logic, Point};

fn rules() -> Constants {
    Constants { max_turns: 400, ship_cost: 1000, dropoff_cost: 4000, max_halite: 1000 }
}

fn pt(x: isize, y: isize) -> Point {
    Point { x, y }
}

fn game_of(rows: Vec<Vec<usize>>, reserve: usize, mine: Vec<(usize, usize, usize, usize)>) -> Game {
    let side = rows.len();
    let mut lines: Vec<Vec<usize>> = vec![vec![0, 0, 0], vec![1, 31, 31], vec![side, side]];
    lines.extend(rows);
    let mut game = Game::init(&lines, rules(), 2, 0).unwrap();
    let mut frame: Vec<Vec<usize>> = vec![vec![11], vec![0, mine.len(), 0, reserve]];
    for s in mine.iter() {
        frame.push(vec![s.0, s.1, s.2, s.3]);
    }
    frame.push(vec![1, 0, 0, 0]);
    frame.push(vec![0]);
    game.update_frame(&frame).unwrap();
    game
}

/// A grid of side 32 that holds `rich` within five steps of (16,16) and
/// `poor` elsewhere.
fn rows_with_a_rich_patch(rich: usize, poor: usize) -> Vec<Vec<usize>> {
    let mut rows = vec![vec![poor; 32]; 32];
    for y in 0..32i32 {
        for x in 0..32i32 {
            if (x - 16).abs() + (y - 16).abs() <= 5 {
                rows[y as usize][x as usize] = rich;
            }
        }
    }
    rows
}

#[test]
fn the_neighbourhood_of_a_cell_is_summed_over_sixty_one_cells() {
    let game = game_of(rows_with_a_rich_patch(200, 3), 0, vec![]);
    assert_eq!(game.nearby(pt(16, 16)), 61 * 200);
    assert_eq!(game.nearby(pt(0, 0)), 61 * 3);
    // one step aside nine cells of the diamond leave the patch and eleven come
    // no more: the diamond around (17,16) has 11 cells of its east rim outside
    assert_eq!(game.nearby(pt(17, 16)), 50 * 200 + 11 * 3);
}

#[test]
fn candidates_stay_while_they_are_rich_and_far_from_home() {
    let game = game_of(rows_with_a_rich_patch(151, 0), 0, vec![]);
    let cands = vec![
        DropoffCandidate { center: pt(16, 16), dist: 3 },
        // poor neighbourhood
        DropoffCandidate { center: pt(26, 16), dist: 3 },
        // rich enough only in part
        DropoffCandidate { center: pt(17, 16), dist: 3 },
    ];
    assert_eq!(prune_candidates(&game, &cands, 15), vec![cands[0]]);
    // too near to the shipyard for a wider spacing: (16,16) lies 32 away
    assert_eq!(prune_candidates(&game, &cands, 33), vec![]);
    // an average of exactly 150 is not enough
    let even = game_of(rows_with_a_rich_patch(150, 0), 0, vec![]);
    assert_eq!(prune_candidates(&even, &cands, 15), vec![]);
}

#[test]
fn the_builder_is_the_ship_with_the_best_site_in_reach() {
    let mine = vec![(1, 16, 13, 0), (2, 16, 20, 0), (3, 2, 2, 0), (4, 15, 16, 0)];
    let game = game_of(rows_with_a_rich_patch(200, 0), 5000, mine);
    let cands = vec![DropoffCandidate { center: pt(16, 16), dist: 3 }];
    // ship 1 and ship 4 are within reach; ship 1 lies 29 from home, ship 4
    // lies 31 and scores higher
    assert_eq!(choose_dropoff_ship(&game, &cands, 15), Some(4));
    let no_reach = vec![DropoffCandidate { center: pt(16, 16), dist: 0 }];
    assert_eq!(choose_dropoff_ship(&game, &no_reach, 15), None);
    assert_eq!(choose_dropoff_ship(&game, &vec![], 15), None);
    // the ships themselves must lie far enough from home
    assert_eq!(choose_dropoff_ship(&game, &cands, 32), None);
}

#[test]
fn a_dense_cluster_of_goals_becomes_a_candidate() {
    let game = game_of(rows_with_a_rich_patch(400, 0), 0, vec![]);
    let mut logic = Logic::new();
    let goals = vec![pt(16, 16), pt(17, 16), pt(16, 17), pt(15, 16), pt(17, 16), pt(3, 3)];
    logic.add_dropoff_candidates(&game, goals, 15);
    // (16,16) lies nearest to the others in sum: 1 + 1 + 1 = 3; the reach
    // is 3 / 4 + 2
    assert_eq!(logic.dropoff_candidates, vec![DropoffCandidate { center: pt(16, 16), dist: 2 }]);
    // known already: not added again
    logic.add_dropoff_candidates(&game, vec![pt(16, 16), pt(17, 16), pt(16, 17)], 15);
    assert_eq!(logic.dropoff_candidates.len(), 1);
}

#[test]
fn two_goals_or_goals_apart_make_no_candidate() {
    let game = game_of(rows_with_a_rich_patch(400, 0), 0, vec![]);
    let mut logic = Logic::new();
    logic.add_dropoff_candidates(&game, vec![pt(16, 16), pt(17, 16)], 15);
    assert!(logic.dropoff_candidates.is_empty());
    logic.add_dropoff_candidates(&game, vec![pt(16, 16), pt(19, 16), pt(16, 19), pt(13, 16)], 15);
    assert!(logic.dropoff_candidates.is_empty());
    // dense, but poor
    let poor = game_of(rows_with_a_rich_patch(100, 0), 0, vec![]);
    logic.add_dropoff_candidates(&poor, vec![pt(16, 16), pt(17, 16), pt(16, 17)], 15);
    assert!(logic.dropoff_candidates.is_empty());
}

#[test]
fn a_chain_of_goals_is_one_cluster() {
    let game = game_of(rows_with_a_rich_patch(400, 0), 0, vec![]);
    let mut logic = Logic::new();
    // each goal lies two steps from the next, the ends lie four apart
    logic.add_dropoff_candidates(&game, vec![pt(14, 16), pt(16, 16), pt(18, 16)], 15);
    assert_eq!(logic.dropoff_candidates, vec![DropoffCandidate { center: pt(16, 16), dist: 3 }]);
}
