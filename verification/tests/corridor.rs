use my_bot::corridor::get_wrap_idx;
use my_bot::{Constants, Game, Point};

fn rules() -> Constants {
    Constants { max_turns: 400, ship_cost: 1000, dropoff_cost: 4000, max_halite: 1000 }
}

/// A grid whose cell in column x of row y holds 10 * y + x.
fn numbered_game(side: usize) -> Game {
    let mut lines: Vec<Vec<usize>> = vec![vec![0, 0, 0], vec![side, side]];
    for y in 0..side {
        lines.push((0..side).map(|x| 10 * y + x).collect());
    }
    Game::init(&lines, rules(), 1, 0).unwrap()
}

fn pt(x: isize, y: isize) -> Point {
    Point { x, y }
}

#[test]
fn wrap_indices_run_straight_or_over_the_edge() {
    assert_eq!(get_wrap_idx(2, 5, false, false, 8), vec![2, 3, 4, 5]);
    assert_eq!(get_wrap_idx(2, 5, false, true, 8), vec![5, 4, 3, 2]);
    assert_eq!(get_wrap_idx(1, 6, true, false, 8), vec![6, 7, 0, 1]);
    assert_eq!(get_wrap_idx(1, 6, true, true, 8), vec![1, 0, 7, 6]);
    assert_eq!(get_wrap_idx(3, 3, false, false, 8), vec![3]);
}

#[test]
fn corridor_between_a_cell_and_itself_is_empty() {
    let game = numbered_game(8);
    assert_eq!(game.halite_between2(pt(3, 3), pt(3, 3), &|v| v), 0);
    assert_eq!(game.halite_between(pt(3, 3), pt(3, 3)), 0);
}

#[test]
fn corridor_along_a_row_sums_the_cells_between() {
    let game = numbered_game(8);
    // row 2 holds 20..27; between column 1 and column 4 lie 22 and 23
    assert_eq!(game.halite_between2(pt(1, 2), pt(4, 2), &|v| v), 45);
    assert_eq!(game.halite_between2(pt(4, 2), pt(1, 2), &|v| v), 45);
    // the shorter way from column 1 to column 6 wraps over 0 and 7
    assert_eq!(game.halite_between2(pt(1, 2), pt(6, 2), &|v| v), 20 + 27);
    // neighbours have nothing between them
    assert_eq!(game.halite_between2(pt(1, 2), pt(2, 2), &|v| v), 0);
}

#[test]
fn corridor_along_a_column_sums_the_cells_between() {
    let game = numbered_game(8);
    assert_eq!(game.halite_between2(pt(3, 1), pt(3, 4), &|v| v), 23 + 33);
    assert_eq!(game.halite_between2(pt(3, 6), pt(3, 1), &|v| v), 73 + 3);
}

#[test]
fn corridor_divides_each_cell_before_it_adds() {
    let game = numbered_game(8);
    // 22 / 10 + 23 / 10, not 45 / 10
    assert_eq!(game.halite_between2(pt(1, 2), pt(4, 2), &|v| v / 10), 4);
    assert_eq!(game.halite_between2(pt(3, 1), pt(3, 4), &|v| v / 10), 2 + 3);
}

#[test]
fn corridor_applies_the_transform_to_every_cell_on_the_way() {
    let game = numbered_game(8);
    // between (1,2) and (6,2) over the edge lie 20 and 27
    assert_eq!(game.halite_between2(pt(1, 2), pt(6, 2), &|v| v % 5), 0 + 2);
    // between (1,1) and (3,3), capped at 20: 12 13 20 along the top and
    // right, 20 20 20 along the left and bottom
    assert_eq!(game.halite_between2(pt(1, 1), pt(3, 3), &|v| v.min(20)), 12 + 13 + 20);
    // every cell counted as one: the cells between
    assert_eq!(game.halite_between2(pt(0, 0), pt(3, 2), &|_| 1), 4);
}

#[test]
fn corridor_across_takes_the_cheapest_staircase() {
    let game = numbered_game(8);
    // from (1,1) to (3,3): values grow to the right and downwards, so the
    // cheapest staircase keeps low: 12 13 23, or 21 31 32, or 12 22 23 ...
    // right, right, down, down passes 12, 13, 23 = 48
    // down, down, right, right passes 21, 31, 32 = 84
    assert_eq!(game.halite_between2(pt(1, 1), pt(3, 3), &|v| v), 48);
    assert_eq!(game.halite_between2(pt(3, 3), pt(1, 1), &|v| v), 48);
}

#[test]
fn corridor_and_search_agree_where_one_corridor_is_shortest() {
    let game = numbered_game(8);
    let pairs = [
        (pt(1, 1), pt(3, 3)),
        (pt(0, 0), pt(3, 0)),
        (pt(6, 1), pt(1, 2)),
        (pt(2, 7), pt(4, 1)),
        (pt(5, 5), pt(5, 2)),
        (pt(7, 7), pt(1, 1)),
    ];
    for (a, b) in pairs.iter() {
        assert_eq!(game.halite_between2(*a, *b, &|v| v), game.halite_between(*a, *b));
    }
}

#[test]
fn corridor_has_one_cell_less_than_the_distance() {
    // on a grid that holds one everywhere the sum counts the cells between
    let mut lines: Vec<Vec<usize>> = vec![vec![0, 0, 0], vec![8, 8]];
    for _ in 0..8 {
        lines.push(vec![1; 8]);
    }
    let game = Game::init(&lines, rules(), 1, 0).unwrap();
    for (a, b) in [(pt(0, 0), pt(3, 2)), (pt(7, 1), pt(2, 6)), (pt(4, 4), pt(4, 7))].iter() {
        let between = game.halite_between2(*a, *b, &|v| v) as usize;
        assert_eq!(between, game.dist(*a, *b) - 1);
        assert_eq!(game.halite_between(*a, *b) as usize, game.dist(*a, *b) - 1);
    }
}

#[test]
fn corridor_and_search_agree_on_rich_cells_while_no_detour_pays() {
    // cells of about 60000: a detour of two steps costs 200000 more, so up to
    // three cells between the ends the shortest ways are the cheapest
    let side = 16;
    let mut lines: Vec<Vec<usize>> = vec![vec![0, 0, 0], vec![side, side]];
    for y in 0..side {
        lines.push((0..side).map(|x| 60000 + (7 * x + 13 * y) % 101).collect());
    }
    let game = Game::init(&lines, rules(), 1, 0).unwrap();
    let pairs = [
        (pt(3, 3), pt(4, 3)),
        (pt(3, 3), pt(3, 5)),
        (pt(15, 0), pt(1, 1)),
        (pt(5, 9), pt(7, 11)),
        (pt(8, 8), pt(5, 7)),
        (pt(0, 15), pt(2, 1)),
    ];
    for (a, b) in pairs.iter() {
        assert!(game.dist(*a, *b) <= 4);
        assert_eq!(game.halite_between2(*a, *b, &|v| v), game.halite_between(*a, *b));
    }
}

#[test]
fn corridor_between_a_cell_and_itself_is_empty_whatever_the_transform() {
    let game = numbered_game(8);
    assert_eq!(game.halite_between2(pt(2, 5), pt(2, 5), &|v| v * 3 + 1), 0);
}

#[test]
fn corridor_between_neighbours_is_empty_whatever_the_transform() {
    let game = numbered_game(8);
    assert_eq!(game.halite_between2(pt(2, 5), pt(3, 5), &|_| 7), 0);
    assert_eq!(game.halite_between2(pt(2, 5), pt(2, 4), &|v| v + 1), 0);
    // over the edge as well
    assert_eq!(game.halite_between2(pt(0, 0), pt(7, 0), &|_| 7), 0);
    assert_eq!(game.halite_between2(pt(4, 7), pt(4, 0), &|_| 7), 0);
}

#[test]
fn search_between_neighbours_finds_nothing_between() {
    let game = numbered_game(8);
    assert_eq!(game.halite_between(pt(2, 5), pt(3, 5)), 0);
    assert_eq!(game.halite_between(pt(0, 0), pt(7, 0)), 0);
    assert_eq!(game.halite_between(pt(4, 7), pt(4, 0)), 0);
}
