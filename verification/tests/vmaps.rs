use my_bot::{Constants, Game, Point};

fn rules() -> Constants {
    Constants { max_turns: 400, ship_cost: 1000, dropoff_cost: 4000, max_halite: 1000 }
}

fn flat_game(side: usize) -> Game {
    let mut lines: Vec<Vec<usize>> = vec![vec![0, 1, 1], vec![side, side]];
    for _ in 0..side {
        lines.push(vec![0; side]);
    }
    Game::init(&lines, rules(), 1, 0).unwrap()
}

fn pt(x: isize, y: isize) -> Point {
    Point { x, y }
}

#[test]
fn nearest_base_distance_is_the_least_over_the_bases() {
    let game = flat_game(8);
    let bases = vec![pt(1, 1), pt(6, 5), pt(2, 6)];
    let (idx, dist) = game.make_vmaps(&bases);
    for x in 0..8 {
        for y in 0..8 {
            let cell = pt(x, y);
            let least = bases.iter().map(|b| game.dist(cell, *b)).min().unwrap();
            assert_eq!(*dist.get(cell), least);
            let owner = *idx.get(cell);
            assert_eq!(game.dist(cell, bases[owner]), least);
            for earlier in 0..owner {
                assert!(game.dist(cell, bases[earlier]) > least);
            }
        }
    }
}

#[test]
fn single_base_map_is_the_distance_to_it() {
    let game = flat_game(8);
    let (idx, dist) = game.make_vmaps(&vec![pt(3, 4)]);
    assert_eq!(*dist.get(pt(3, 4)), 0);
    assert_eq!(*dist.get(pt(7, 0)), 8);
    assert_eq!(*dist.get(pt(0, 4)), 3);
    assert_eq!(*idx.get(pt(7, 0)), 0);
}

#[test]
fn a_base_listed_twice_owns_through_its_first_entry() {
    let game = flat_game(4);
    let (idx, dist) = game.make_vmaps(&vec![pt(0, 0), pt(0, 0), pt(2, 2)]);
    assert_eq!(*idx.get(pt(0, 0)), 0);
    assert_eq!(*idx.get(pt(1, 0)), 0);
    assert_eq!(*idx.get(pt(2, 2)), 2);
    assert_eq!(*idx.get(pt(2, 0)), 0);
    assert_eq!(*dist.get(pt(2, 0)), 2);
}

#[test]
fn opening_computes_the_maps_for_the_shipyard() {
    let game = flat_game(8);
    assert_eq!(game.my_drop_pts, vec![pt(1, 1)]);
    assert_eq!(*game.nearest_drop_pt_dist.get(pt(5, 5)), 8);
    assert_eq!(game.nearest_drop_pos(pt(6, 2)), pt(1, 1));
    assert!(!game.is_occupied(pt(1, 1)));
}
