use my_bot::conflict::{resolve_movable_chain, Board, Candidate, Mover, BLOCKED};
use my_bot::{Direction, GMap, Point};

fn pt(x: isize, y: isize) -> Point {
    Point { x, y }
}

/// The five moves of a ship on `pos` of an 8 by 8 grid, with the given costs.
fn mover(id: usize, pos: Point, costs: [i64; 5]) -> Mover {
    let wrap = |v: isize| ((v % 8) + 8) % 8;
    let cells = [
        pt(pos.x, wrap(pos.y - 1)),
        pt(wrap(pos.x + 1), pos.y),
        pt(pos.x, wrap(pos.y + 1)),
        pt(wrap(pos.x - 1), pos.y),
        pos,
    ];
    let dirs = Direction::all_directions();
    let candidates = (0..5)
        .map(|m| Candidate { pos: cells[m], dir: dirs[m], base: costs[m], threat: 0 })
        .collect();
    Mover { id, candidates }
}

fn empty_board() -> Board {
    Board::new(8, 8, GMap::filled(8, 8, false), GMap::filled(8, 8, false))
}

fn destinations(movers: &Vec<Mover>, board: &Board) -> Vec<Option<Point>> {
    (0..movers.len())
        .map(|u| board.commands[u].map(|d| movers[u].candidates[dir_index(d)].pos))
        .collect()
}

fn dir_index(d: Direction) -> usize {
    match d {
        Direction::North => 0,
        Direction::East => 1,
        Direction::South => 2,
        Direction::West => 3,
        Direction::Still => 4,
    }
}

#[test]
fn three_ships_after_one_cell_end_on_three_cells() {
    // ships west, east and north of (4,4), each cheapest on (4,4)
    let movers = vec![
        mover(10, pt(3, 4), [50, 10, 50, 50, 30]),
        mover(11, pt(5, 4), [50, 50, 50, 10, 30]),
        mover(12, pt(4, 3), [50, 50, 10, 50, 30]),
    ];
    let mut board = empty_board();
    let pass = board.reserve_moves(8, 8, &movers);
    let failed = board.fix_collisions(8, 8, &movers, &pass);
    assert!(failed.is_empty());
    let dests = destinations(&movers, &board);
    assert_eq!(dests[0], Some(pt(4, 4)));
    assert_eq!(dests[1], Some(pt(5, 4)));
    assert_eq!(dests[2], Some(pt(4, 3)));
    assert_eq!(board.commands, vec![Some(Direction::East), Some(Direction::Still), Some(Direction::Still)]);
    let taken: Vec<Point> = dests.iter().map(|d| d.unwrap()).collect();
    for i in 0..taken.len() {
        for j in 0..i {
            assert_ne!(taken[i], taken[j]);
        }
    }
}

#[test]
fn first_round_scores_reserved_cells_without_penalty() {
    let movers = vec![
        mover(1, pt(3, 4), [50, 10, 50, 50, 30]),
        mover(2, pt(5, 4), [50, 50, 50, 10, 30]),
    ];
    let mut board = empty_board();
    let pass = board.reserve_moves(8, 8, &movers);
    // the second ship finds (4,4) taken by a moving ship: no penalty in its
    // open score, and west stays its wish
    assert_eq!(pass.options[1][3].score, 10);
    assert_eq!(pass.wishes[1], Direction::West);
    assert_eq!(pass.wishes[0], Direction::East);
    assert!(pass.colliding.is_empty());
    assert!(*board.forbidden.get(pt(4, 4)));
    assert_eq!(*board.movable_next.get(pt(4, 4)), Some(0));
}

#[test]
fn cells_of_ships_that_cannot_move_keep_their_penalty() {
    let mut immovable = GMap::filled(8, 8, false);
    immovable.set(pt(4, 4), true);
    let mut board = Board::new(8, 8, immovable, GMap::filled(8, 8, false));
    let movers = vec![mover(1, pt(3, 4), [50, 10, 50, 50, 30])];
    let pass = board.reserve_moves(8, 8, &movers);
    assert_eq!(pass.options[0][1].score, 10 + BLOCKED);
    assert_eq!(board.commands, vec![Some(Direction::Still)]);
}

#[test]
fn a_boxed_in_ship_pushes_its_neighbour_aside() {
    // north, south and west of (4,4) stand ships that cannot move
    let mut immovable = GMap::filled(8, 8, false);
    immovable.set(pt(4, 3), true);
    immovable.set(pt(4, 5), true);
    immovable.set(pt(3, 4), true);
    let mut board = Board::new(8, 8, immovable, GMap::filled(8, 8, false));
    let movers = vec![
        // from (5,4) onto (4,4)
        mover(1, pt(5, 4), [50, 50, 50, 10, 30]),
        // from (6,4) onto (5,4)
        mover(2, pt(6, 4), [50, 50, 50, 10, 30]),
        // the ship on (4,4) finds all five cells taken
        mover(3, pt(4, 4), [50, 20, 50, 50, 5]),
    ];
    let pass = board.reserve_moves(8, 8, &movers);
    assert_eq!(pass.colliding, vec![2]);
    assert_eq!(board.commands, vec![Some(Direction::West), Some(Direction::West), None]);
    assert_eq!(pass.wishes[2], Direction::Still);
    assert_eq!(pass.options[2][0].score, 50 + BLOCKED);
    assert_eq!(pass.options[2][1].score, 20);
    assert_eq!(pass.options[2][4].score, 5);
    // to stay, the ship must push the first ship off (4,4): one ship moves
    // otherwise than it wished. To go east it must push the second off (5,4)
    // and moves otherwise than it wished itself: two ships.
    let failed = board.fix_collisions(8, 8, &movers, &pass);
    assert!(failed.is_empty());
    assert_eq!(
        board.commands,
        vec![Some(Direction::North), Some(Direction::West), Some(Direction::Still)]
    );
    let dests = destinations(&movers, &board);
    assert_eq!(dests, vec![Some(pt(5, 3)), Some(pt(5, 4)), Some(pt(4, 4))]);
    assert_eq!(*board.movable_next.get(pt(4, 4)), Some(2));
    assert_eq!(*board.movable_next.get(pt(5, 3)), Some(0));
    assert!(*board.forbidden.get(pt(5, 3)));
}

#[test]
fn a_ship_that_no_one_can_make_room_for_is_reported() {
    // all four neighbours cannot move, and the ship's own cell is taken by
    // a ship that has nowhere else to go
    let mut immovable = GMap::filled(8, 8, false);
    for c in [pt(0, 7), pt(1, 0), pt(0, 1), pt(7, 0)].iter() {
        immovable.set(*c, true);
    }
    let mut shared = GMap::filled(8, 8, false);
    shared.set(pt(5, 5), true);
    let mut board = Board::new(8, 8, immovable, shared);
    let movers = vec![mover(1, pt(0, 0), [10, 10, 10, 10, 50])];
    let pass = board.reserve_moves(8, 8, &movers);
    assert!(pass.colliding.is_empty());
    assert_eq!(board.commands, vec![Some(Direction::Still)]);
    // a second board on which the cell of the ship is held as well
    let mut immovable = GMap::filled(8, 8, false);
    for c in [pt(0, 7), pt(1, 0), pt(0, 1), pt(7, 0), pt(0, 0)].iter() {
        immovable.set(*c, true);
    }
    let mut board = Board::new(8, 8, immovable, GMap::filled(8, 8, false));
    let pass = board.reserve_moves(8, 8, &movers);
    assert_eq!(pass.colliding, vec![0]);
    let failed = board.fix_collisions(8, 8, &movers, &pass);
    assert_eq!(failed, vec![0]);
    assert_eq!(board.commands, vec![None]);
}

#[test]
fn chain_of_one_moves_the_holder_to_its_free_alternative() {
    let movers = vec![
        mover(1, pt(3, 4), [50, 10, 50, 50, 30]),
        mover(2, pt(5, 4), [50, 50, 50, 10, 30]),
    ];
    let mut board = empty_board();
    let pass = board.reserve_moves(8, 8, &movers);
    // the holder of (4,4) is ship 1, which came from (3,4); its cheapest
    // free alternative is to stand still, at 30 instead of 10
    let chain = resolve_movable_chain(&board, 8, 8, &movers, &pass.options, pt(4, 4));
    assert_eq!(chain, Some((20, vec![(0, pt(4, 4), Direction::Still)])));
    // a free cell needs no chain
    let none = resolve_movable_chain(&board, 8, 8, &movers, &pass.options, pt(0, 0));
    assert_eq!(none, Some((0, vec![])));
}

#[test]
fn no_chain_through_a_ship_that_cannot_move() {
    let mut immovable = GMap::filled(8, 8, false);
    immovable.set(pt(4, 4), true);
    let mut board = Board::new(8, 8, immovable, GMap::filled(8, 8, false));
    let movers = vec![mover(1, pt(3, 4), [50, 10, 50, 50, 30])];
    let pass = board.reserve_moves(8, 8, &movers);
    assert_eq!(resolve_movable_chain(&board, 8, 8, &movers, &pass.options, pt(4, 4)), None);
}

#[test]
fn a_ship_with_all_cells_taken_is_rerouted_through_a_chain() {
    // four ships ring (4,4) and have their turn first; each steps onto one
    // of the cells around the fifth ship, which sits on (4,4) and finds its
    // own cell taken too
    let movers = vec![
        mover(1, pt(4, 2), [50, 50, 10, 50, 30]),
        mover(2, pt(6, 4), [50, 50, 50, 10, 30]),
        mover(3, pt(4, 6), [10, 50, 50, 50, 30]),
        mover(4, pt(2, 4), [50, 10, 50, 50, 30]),
        mover(5, pt(5, 5), [50, 50, 50, 50, 5]),
        mover(6, pt(3, 3), [60, 20, 60, 60, 90]),
    ];
    let mut board = empty_board();
    // ship 6 on (3,3) wants east, (4,3), which ship 1 has taken. It is no
    // collision yet: north is free for it.
    let pass = board.reserve_moves(8, 8, &movers);
    assert!(pass.colliding.is_empty());
    assert_eq!(board.commands[5], Some(Direction::North));
    let failed = board.fix_collisions(8, 8, &movers, &pass);
    assert!(failed.is_empty());
    let dests: Vec<Point> = destinations(&movers, &board).iter().map(|d| d.unwrap()).collect();
    for i in 0..dests.len() {
        for j in 0..i {
            assert_ne!(dests[i], dests[j]);
        }
    }
}

#[test]
fn ships_may_meet_on_shared_cells() {
    let mut shared = GMap::filled(8, 8, false);
    shared.set(pt(4, 4), true);
    let mut board = Board::new(8, 8, GMap::filled(8, 8, false), shared);
    let movers = vec![
        mover(1, pt(3, 4), [50, 10, 50, 50, 30]),
        mover(2, pt(5, 4), [50, 50, 50, 10, 30]),
    ];
    let pass = board.reserve_moves(8, 8, &movers);
    assert!(pass.colliding.is_empty());
    assert_eq!(board.commands, vec![Some(Direction::East), Some(Direction::West)]);
    assert!(!*board.forbidden.get(pt(4, 4)));
}

#[test]
fn a_free_cell_needs_no_chain_even_without_movers() {
    let board = empty_board();
    let movers: Vec<Mover> = vec![];
    let chain = resolve_movable_chain(&board, 8, 8, &movers, &vec![], pt(3, 3));
    assert_eq!(chain, Some((0, vec![])));
}
