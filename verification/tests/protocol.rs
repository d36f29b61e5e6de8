use my_bot::protocol::{lines_needed, parse_line_of_nums, Malformed};
use my_bot::{Constants, Dropoff, Factory, Game, Point, Ship};

fn rules() -> Constants {
    Constants { max_turns: 400, ship_cost: 1000, dropoff_cost: 4000, max_halite: 1000 }
}

fn pt(x: isize, y: isize) -> Point {
    Point { x, y }
}

fn opening(side: usize) -> Vec<Vec<usize>> {
    let mut lines: Vec<Vec<usize>> = vec![vec![0, 1, 1], vec![1, 2, 2], vec![side, side]];
    for y in 0..side {
        lines.push((0..side).map(|x| x + 10 * y).collect());
    }
    lines
}

fn opened() -> Game {
    Game::init(&opening(4), rules(), 2, 0).unwrap()
}

#[test]
fn a_line_of_numbers_is_split_at_white_space() {
    assert_eq!(parse_line_of_nums("1 22 333"), Some(vec![1, 22, 333]));
    assert_eq!(parse_line_of_nums("  7\t8 \r\n"), Some(vec![7, 8]));
    assert_eq!(parse_line_of_nums(""), Some(vec![]));
    assert_eq!(parse_line_of_nums("   "), Some(vec![]));
    assert_eq!(parse_line_of_nums("0"), Some(vec![0]));
    assert_eq!(parse_line_of_nums("5\u{a0}6\u{2003}7"), Some(vec![5, 6, 7]));
}

#[test]
fn a_number_may_carry_a_plus_sign_and_leading_zeros() {
    assert_eq!(parse_line_of_nums("+5 007"), Some(vec![5, 7]));
    assert_eq!(parse_line_of_nums("+"), None);
    assert_eq!(parse_line_of_nums("++5"), None);
    assert_eq!(parse_line_of_nums("5+"), None);
}

#[test]
fn a_word_that_is_no_number_spoils_the_line() {
    assert_eq!(parse_line_of_nums("1 x 3"), None);
    assert_eq!(parse_line_of_nums("-1"), None);
    assert_eq!(parse_line_of_nums("1.5"), None);
    assert_eq!(parse_line_of_nums("12a"), None);
    assert_eq!(parse_line_of_nums("\u{663}"), None);
}

#[test]
fn a_number_must_fit_a_machine_word() {
    let max = usize::MAX.to_string();
    assert_eq!(parse_line_of_nums(&max), Some(vec![usize::MAX]));
    let mut over = max.clone();
    over.push('0');
    assert_eq!(parse_line_of_nums(&over), None);
    assert_eq!(parse_line_of_nums("99999999999999999999999999"), None);
}

#[test]
fn constants_are_read_from_the_document() {
    let doc: serde_json::Value = serde_json::from_str(
        "{\"MAX_TURNS\": 425, \"NEW_ENTITY_ENERGY_COST\": 1000, \"DROPOFF_COST\": 4000, \
         \"MAX_ENERGY\": 1000, \"EXTRACT_RATIO\": 4}",
    )
    .unwrap();
    assert_eq!(
        Constants::from_json(&doc),
        Some(Constants { max_turns: 425, ship_cost: 1000, dropoff_cost: 4000, max_halite: 1000 })
    );
}

#[test]
fn constants_that_are_missing_or_no_whole_numbers_are_refused() {
    let parse = |text: &str| -> serde_json::Value { serde_json::from_str(text).unwrap() };
    let missing =
        parse("{\"MAX_TURNS\": 425, \"NEW_ENTITY_ENERGY_COST\": 1000, \"DROPOFF_COST\": 4000}");
    assert_eq!(Constants::from_json(&missing), None);
    let negative = parse(
        "{\"MAX_TURNS\": -4, \"NEW_ENTITY_ENERGY_COST\": 1000, \"DROPOFF_COST\": 4000, \"MAX_ENERGY\": 1000}",
    );
    assert_eq!(Constants::from_json(&negative), None);
    let fraction = parse(
        "{\"MAX_TURNS\": 425.5, \"NEW_ENTITY_ENERGY_COST\": 1000, \"DROPOFF_COST\": 4000, \"MAX_ENERGY\": 1000}",
    );
    assert_eq!(Constants::from_json(&fraction), None);
    let text = parse(
        "{\"MAX_TURNS\": \"425\", \"NEW_ENTITY_ENERGY_COST\": 1000, \"DROPOFF_COST\": 4000, \"MAX_ENERGY\": 1000}",
    );
    assert_eq!(Constants::from_json(&text), None);
    assert_eq!(Constants::from_json(&parse("[1, 2, 3]")), None);
    assert_eq!(Constants::from_json(&parse("null")), None);
}

#[test]
fn the_opening_lines_set_up_the_game() {
    let game = opened();
    assert_eq!(game.width, 4);
    assert_eq!(game.height, 4);
    assert_eq!(game.turn_number, 0);
    assert_eq!(game.max_turns, 400);
    assert_eq!(game.num_players, 2);
    assert_eq!(game.my_pid, 0);
    assert_eq!(game.factories.len(), 2);
    assert_eq!(game.factories[1].player, 1);
    assert_eq!(game.factories[1].pos, pt(2, 2));
    assert_eq!(game.my_drop_pts, vec![pt(1, 1)]);
    assert_eq!(game.halite_at(pt(3, 2)), 23);
    assert_eq!(*game.enemy_drop_pts.get(pt(2, 2)), Some(1));
    assert_eq!(*game.enemy_drop_pts.get(pt(1, 1)), None);
    assert!(game.ships.is_empty());
    assert_eq!(game.energy, vec![0, 0]);
    assert_eq!(*game.nearest_drop_pt_dist.get(pt(3, 3)), 4);
}

#[test]
fn opening_lines_that_do_not_fit_are_refused() {
    let refused = |lines: &Vec<Vec<usize>>, players: usize, me: usize| -> bool {
        Game::init(lines, rules(), players, me).is_err()
    };
    assert!(!refused(&opening(4), 2, 0));
    assert!(!refused(&opening(4), 2, 1));
    // the own player is none of the players
    assert!(refused(&opening(4), 2, 2));
    // a grid with an odd side, and one that is not square
    assert!(refused(&opening(5), 2, 0));
    let mut oblong = opening(4);
    oblong[2] = vec![4, 6];
    assert!(refused(&oblong, 2, 0));
    // a row too short, a row missing, a row too many
    let mut short = opening(4);
    short[4].pop();
    assert!(refused(&short, 2, 0));
    let mut fewer = opening(4);
    fewer.pop();
    assert!(refused(&fewer, 2, 0));
    let mut more = opening(4);
    more.push(vec![0, 0, 0, 0]);
    assert!(refused(&more, 2, 0));
    // a shipyard off the grid
    let mut off = opening(4);
    off[1] = vec![1, 4, 0];
    assert!(refused(&off, 2, 0));
    // no shipyard of the own player
    let mut foreign = opening(4);
    foreign[0] = vec![1, 1, 1];
    assert!(refused(&foreign, 2, 0));
    // rules beyond what the planner can hold
    let huge = Constants { max_turns: 4294967296, ..rules() };
    assert!(Game::init(&opening(4), huge, 2, 0).is_err());
    assert_eq!(Game::init(&opening(5), rules(), 2, 0).err(), Some(Malformed {}));
}

fn turn() -> Vec<Vec<usize>> {
    vec![
        vec![3],
        vec![0, 2, 1, 5000],
        vec![7, 0, 0, 10],
        vec![9, 3, 1, 250],
        vec![0, 3, 3],
        vec![1, 1, 0, 40],
        vec![4, 2, 0, 999],
        vec![2],
        vec![0, 0, 77],
        vec![3, 2, 0],
    ]
}

#[test]
fn a_turn_is_read_into_the_game() {
    let mut game = opened();
    assert_eq!(game.update_frame(&turn()), Ok(()));
    assert_eq!(game.turn_number, 2);
    assert_eq!(game.energy, vec![5000, 40]);
    assert_eq!(game.ship_id_by_player, vec![vec![7, 9], vec![4]]);
    assert_eq!(game.ships.len(), 3);
    assert_eq!(game.ships[&9], Ship { player: 0, ship_id: 9, pos: pt(3, 1), halite: 250 });
    assert_eq!(game.ships[&4], Ship { player: 1, ship_id: 4, pos: pt(2, 0), halite: 999 });
    assert!(game.is_occupied(pt(3, 1)));
    assert!(!game.is_occupied(pt(1, 1)));
    assert_eq!(*game.ship_map.get(pt(2, 0)), Some(4));
    assert_eq!(game.dropoffs, vec![Dropoff { player: 0, pos: pt(3, 3) }]);
    assert_eq!(game.my_drop_pts, vec![pt(1, 1), pt(3, 3)]);
    // the tables of nearest sites know the new site
    assert_eq!(*game.nearest_drop_pt_dist.get(pt(3, 2)), 1);
    assert_eq!(*game.nearest_drop_pt_idx.get(pt(3, 2)), 1);
    assert_eq!(game.nearest_drop_pos(pt(0, 0)), pt(1, 1));
    // the cells that changed
    assert_eq!(game.halite_at(pt(0, 0)), 77);
    assert_eq!(game.halite_at(pt(3, 2)), 0);
    assert_eq!(game.halite_at(pt(1, 2)), 21);
    assert_eq!(game.factories[0], Factory { player: 0, pos: pt(1, 1) });
}

#[test]
fn a_second_turn_replaces_the_ships_and_keeps_the_sites() {
    let mut game = opened();
    game.update_frame(&turn()).unwrap();
    let next = vec![
        vec![4],
        vec![0, 1, 1, 10],
        vec![9, 3, 2, 300],
        vec![0, 3, 3],
        vec![1, 0, 1, 0],
        vec![1, 0, 3],
        vec![0],
    ];
    assert_eq!(game.update_frame(&next), Ok(()));
    assert_eq!(game.turn_number, 3);
    assert_eq!(game.ships.len(), 1);
    assert!(!game.ships.contains_key(&7));
    assert_eq!(game.ship_id_by_player, vec![vec![9], vec![]]);
    assert_eq!(game.my_drop_pts, vec![pt(1, 1), pt(3, 3)]);
    assert_eq!(*game.enemy_drop_pts.get(pt(0, 3)), Some(1));
    assert_eq!(game.halite_at(pt(0, 0)), 77);
}

#[test]
fn a_turn_that_does_not_fit_is_refused_and_changes_nothing() {
    let refused = |frame: Vec<Vec<usize>>| -> bool {
        let mut game = opened();
        let r = game.update_frame(&frame);
        r == Err(Malformed {}) && game.turn_number == 0 && game.ships.is_empty()
            && game.halite_at(pt(0, 0)) == 0 && game.my_drop_pts == vec![pt(1, 1)]
    };
    assert!(refused(vec![]));
    assert!(refused(vec![vec![0], vec![0, 0, 0, 0], vec![1, 0, 0, 0], vec![0]]));
    assert!(refused(vec![vec![402], vec![0, 0, 0, 0], vec![1, 0, 0, 0], vec![0]]));
    let mut frame = turn();
    frame[2] = vec![7, 4, 0, 10]; // a ship off the grid
    assert!(refused(frame));
    let mut frame = turn();
    frame[3] = vec![7, 3, 1, 250]; // two ships with one id
    assert!(refused(frame));
    let mut frame = turn();
    frame[6] = vec![4, 0, 0, 999]; // two ships on one cell
    assert!(refused(frame));
    let mut frame = turn();
    frame[6] = vec![7, 2, 0, 999]; // one id for ships of two players
    assert!(refused(frame));
    let mut frame = turn();
    frame[5] = vec![0, 1, 0, 40]; // the players out of order
    assert!(refused(frame));
    let mut frame = turn();
    frame.pop(); // a change missing
    assert!(refused(frame));
    let mut frame = turn();
    frame.push(vec![1, 1, 1]); // a line too many
    assert!(refused(frame));
    let mut frame = turn();
    frame[8] = vec![0, 4, 77]; // a change off the grid
    assert!(refused(frame));
    let mut frame = turn();
    frame[4] = vec![0, 3]; // a site without its row
    assert!(refused(frame));
    let mut frame = turn();
    frame[1] = vec![0, 2, 1]; // a player without its reserve
    assert!(refused(frame));
}

#[test]
fn the_reader_is_told_how_many_lines_are_to_come() {
    let frame = turn();
    assert_eq!(lines_needed(&vec![], 2), 2);
    assert_eq!(lines_needed(&frame[..1].to_vec(), 2), 1);
    assert_eq!(lines_needed(&frame[..2].to_vec(), 2), 3);
    assert_eq!(lines_needed(&frame[..4].to_vec(), 2), 1);
    assert_eq!(lines_needed(&frame[..5].to_vec(), 2), 1);
    assert_eq!(lines_needed(&frame[..6].to_vec(), 2), 1);
    assert_eq!(lines_needed(&frame[..7].to_vec(), 2), 1);
    assert_eq!(lines_needed(&frame[..8].to_vec(), 2), 2);
    assert_eq!(lines_needed(&frame[..9].to_vec(), 2), 1);
    assert_eq!(lines_needed(&frame, 2), 0);
    // reading the lines that are asked for ends with a whole turn
    let mut read: Vec<Vec<usize>> = Vec::new();
    loop {
        let n = lines_needed(&read, 2);
        if n == 0 {
            break;
        }
        for _ in 0..n {
            read.push(frame[read.len()].clone());
        }
    }
    assert_eq!(read, frame);
}

#[test]
fn an_own_site_joins_the_list_once() {
    let mut game = opened();
    // the shipyard's cell, a new site twice, and another new site
    let frame = vec![
        vec![2],
        vec![0, 0, 4, 0],
        vec![0, 1, 1],
        vec![0, 3, 3],
        vec![0, 3, 3],
        vec![0, 0, 2],
        vec![1, 0, 0, 0],
        vec![0],
    ];
    assert_eq!(game.update_frame(&frame), Ok(()));
    assert_eq!(game.my_drop_pts, vec![pt(1, 1), pt(3, 3), pt(0, 2)]);
    // every line is a site of the turn all the same
    assert_eq!(game.dropoffs.len(), 4);
    assert_eq!(*game.nearest_drop_pt_idx.get(pt(0, 2)), 2);
    assert_eq!(*game.nearest_drop_pt_dist.get(pt(0, 2)), 0);
}
