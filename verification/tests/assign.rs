use my_bot::assign::assign_greedy;

#[test]
fn greedy_pairs_the_most_valuable_first() {
    // rows are goals, columns are miners
    let weights = vec![vec![5, 9, 1], vec![8, 9, 2], vec![7, 3, 4], vec![0, 0, 0]];
    let pairs = assign_greedy(&weights, 3, 4);
    // 9 occurs twice; the first goal's is taken. Then 8 for miner 0 at goal 1,
    // then 4 for miner 2 at goal 2.
    assert_eq!(pairs, vec![(1, 0), (0, 1), (2, 2)]);
}

#[test]
fn greedy_is_not_the_best_pairing_in_sum() {
    let weights = vec![vec![10, 9], vec![9, 0]];
    let pairs = assign_greedy(&weights, 2, 2);
    // greedy takes 10 and is left with 0; the other pairing sums to 18
    assert_eq!(pairs, vec![(0, 0), (1, 1)]);
}

#[test]
fn every_miner_gets_one_goal_and_no_goal_two_miners() {
    let miners = 4;
    let goals = 6;
    let weights: Vec<Vec<i64>> = (0..goals)
        .map(|g| (0..miners).map(|m| ((g * 7 + m * 13) % 11) as i64 - 5).collect())
        .collect();
    let pairs = assign_greedy(&weights, miners, goals);
    assert_eq!(pairs.len(), miners);
    for i in 0..pairs.len() {
        for j in 0..i {
            assert_ne!(pairs[i].0, pairs[j].0);
            assert_ne!(pairs[i].1, pairs[j].1);
        }
    }
    // each step takes the greatest value still open
    for i in 0..pairs.len() {
        let taken = weights[pairs[i].1][pairs[i].0];
        for g in 0..goals {
            for m in 0..miners {
                let open = pairs[..i].iter().all(|p| p.0 != m && p.1 != g);
                if open {
                    assert!(weights[g][m] <= taken);
                }
            }
        }
    }
}

#[test]
fn greedy_pairs_even_the_worthless() {
    let weights = vec![vec![-50000, -20000], vec![-70000, -90000]];
    let pairs = assign_greedy(&weights, 2, 2);
    assert_eq!(pairs, vec![(1, 0), (0, 1)]);
}

#[test]
fn no_miners_no_pairs() {
    let weights: Vec<Vec<i64>> = vec![vec![], vec![]];
    assert_eq!(assign_greedy(&weights, 0, 2), vec![]);
}
