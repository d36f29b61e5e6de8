use my_bot::protocol::Malformed;
use my_bot::{Constants, Direction, Game, Point};

fn rules() -> Constants {
    Constants { max_turns: 400, ship_cost: 1000, dropoff_cost: 4000, max_halite: 1000 }
}

fn flat_game(side: usize, value: usize) -> Game {
    let mut lines: Vec<Vec<usize>> = vec![vec![0, 0, 0], vec![side, side]];
    for _ in 0..side {
        lines.push(vec![value; side]);
    }
    let built: Result<Game, Malformed> = Game::init(&lines, rules(), 1, 0);
    built.unwrap()
}

fn pt(x: isize, y: isize) -> Point {
    Point { x, y }
}

#[test]
fn directions_are_listed_in_canonical_order() {
    let all = Direction::all_directions();
    assert_eq!(
        all,
        vec![Direction::North, Direction::East, Direction::South, Direction::West, Direction::Still]
    );
    assert_eq!(
        Direction::adjacent_directions(),
        vec![Direction::North, Direction::East, Direction::South, Direction::West]
    );
    let letters: Vec<char> = all.iter().map(|d| d.get_char_encoding()).collect();
    assert_eq!(letters, vec!['n', 'e', 's', 'w', 'o']);
    assert_eq!(Direction::from_index(2), Direction::South);
}

#[test]
fn normalize_wraps_both_ways() {
    let game = flat_game(8, 0);
    assert_eq!(game.normalize(pt(8, -1)), pt(0, 7));
    assert_eq!(game.normalize(pt(-9, 17)), pt(7, 1));
    assert_eq!(game.normalize(pt(3, 4)), pt(3, 4));
    assert_eq!(game.normalize(pt(-8, 16)), pt(0, 0));
}

#[test]
fn distance_is_symmetric_and_zero_on_itself() {
    let game = flat_game(8, 0);
    for ax in 0..8 {
        for ay in 0..8 {
            let a = pt(ax, ay);
            assert_eq!(game.dist(a, a), 0);
            for bx in 0..8 {
                for by in 0..8 {
                    let b = pt(bx, by);
                    assert_eq!(game.dist(a, b), game.dist(b, a));
                }
            }
        }
    }
}

#[test]
fn distance_takes_the_shorter_way_round() {
    let game = flat_game(8, 0);
    assert_eq!(game.dist(pt(0, 0), pt(7, 0)), 1);
    assert_eq!(game.dist(pt(0, 0), pt(4, 4)), 8);
    assert_eq!(game.dist(pt(1, 2), pt(6, 7)), 6);
    assert_eq!(game.dist(pt(2, 2), pt(3, 5)), 4);
}

#[test]
fn ring_of_radius_zero_is_the_centre() {
    let game = flat_game(8, 0);
    assert_eq!(game.tiles_at_dist(pt(3, 3), 0), vec![pt(3, 3)]);
}

#[test]
fn ring_of_radius_one_runs_north_east_south_west() {
    let game = flat_game(8, 0);
    assert_eq!(
        game.tiles_at_dist(pt(0, 0), 1),
        vec![pt(0, 7), pt(1, 0), pt(0, 1), pt(7, 0)]
    );
    // as the four moves that leave the cell
    assert_eq!(game.tiles_at_dist(pt(3, 5), 1), game.neighbors(pt(3, 5)));
}

#[test]
fn ring_of_radius_two_starts_in_the_north_and_runs_by_the_east() {
    let game = flat_game(8, 0);
    assert_eq!(
        game.tiles_at_dist(pt(4, 4), 2),
        vec![pt(4, 2), pt(5, 3), pt(6, 4), pt(5, 5), pt(4, 6), pt(3, 5), pt(2, 4), pt(3, 3)]
    );
}

#[test]
fn rings_hold_each_cell_at_their_distance_once() {
    let game = flat_game(8, 0);
    let centre = pt(5, 2);
    let sizes = [1usize, 4, 8, 12, 14, 12, 8, 4, 1, 0, 0];
    for d in 0..sizes.len() {
        let ring = game.tiles_at_dist(centre, d);
        assert_eq!(ring.len(), sizes[d]);
        for i in 0..ring.len() {
            assert_eq!(game.dist(ring[i], centre), d);
            for j in 0..i {
                assert_ne!(ring[i], ring[j]);
            }
        }
    }
    let mut seen = 0;
    for d in 0..=8 {
        seen += game.tiles_at_dist(centre, d).len();
    }
    assert_eq!(seen, 64);
}

#[test]
fn ring_at_half_the_side_leaves_out_the_doubled_corners() {
    let game = flat_game(4, 0);
    let ring = game.tiles_at_dist(pt(0, 0), 2);
    // north and south fall on (0,2), east and west on (2,0)
    assert_eq!(ring, vec![pt(0, 2), pt(1, 3), pt(2, 0), pt(1, 1), pt(3, 1), pt(3, 3)]);
}

#[test]
fn disk_is_its_rings_from_the_centre_out() {
    let game = flat_game(8, 0);
    let disk = game.tiles_within_dist(pt(4, 4), 2);
    assert_eq!(disk.len(), 13);
    assert_eq!(disk.len(), game.num_tiles_within_dist(2));
    assert_eq!(disk[0], pt(4, 4));
    let between = game.tiles_between_dist(pt(4, 4), 1, 2);
    assert_eq!(between.len(), 12);
    assert_eq!(&disk[1..], &between[..]);
    assert_eq!(game.num_tiles_within_dist(5), 61);
    assert_eq!(game.tiles_between_dist(pt(4, 4), 9, 20).len(), 0);
}

#[test]
fn steps_and_neighbours_follow_the_canonical_order() {
    let game = flat_game(8, 0);
    assert_eq!(game.step_toward(pt(0, 0), Direction::North), pt(0, 7));
    assert_eq!(game.step_toward(pt(7, 0), Direction::East), pt(0, 0));
    assert_eq!(game.step_toward(pt(3, 3), Direction::Still), pt(3, 3));
    assert_eq!(game.neighbors(pt(0, 0)), vec![pt(0, 7), pt(1, 0), pt(0, 1), pt(7, 0)]);
    assert_eq!(
        game.neighborhood(pt(0, 0)),
        vec![pt(0, 7), pt(1, 0), pt(0, 1), pt(7, 0), pt(0, 0)]
    );
}

#[test]
fn naive_navigation_picks_the_first_nearest_step() {
    let game = flat_game(8, 0);
    assert_eq!(game.navigate_naive(pt(0, 0), pt(0, 6)), (pt(0, 7), Direction::North));
    assert_eq!(game.navigate_naive(pt(0, 0), pt(3, 3)), (pt(1, 0), Direction::East));
    assert_eq!(game.navigate_naive(pt(2, 2), pt(2, 2)), (pt(2, 2), Direction::Still));
}

#[test]
fn navigation_without_collision_avoids_and_reserves() {
    let game = flat_game(8, 0);
    let mut forbidden = my_bot::GMap { gmap: vec![vec![false; 8]; 8] };
    forbidden.gmap[0][1] = true;
    let (pos, dir) = game.navigate_no_collide(pt(0, 0), pt(3, 3), &mut forbidden);
    assert_eq!((pos, dir), (pt(0, 1), Direction::South));
    assert!(forbidden.gmap[1][0]);
    let (pos2, dir2) = game.navigate_no_collide(pt(0, 0), pt(3, 3), &mut forbidden);
    assert_eq!((pos2, dir2), (pt(0, 0), Direction::Still));
}

#[test]
fn grid_map_reads_and_writes_by_cell() {
    let mut map = my_bot::GMap::filled(3, 2, 7usize);
    assert_eq!(*map.get(pt(2, 1)), 7);
    map.set(pt(2, 1), 9);
    assert_eq!(*map.get_idx(2, 1), 9);
    *map.get_mut(pt(0, 0)) = 4;
    assert_eq!(map.gmap, vec![vec![4, 7, 7], vec![7, 7, 9]]);
}
