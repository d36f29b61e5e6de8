use my_bot::DisjointSet;

#[test]
fn singletons_are_their_own_representatives() {
    let mut ds = DisjointSet::make_singletons(5);
    assert_eq!(ds.size, 5);
    for x in 0..5 {
        assert_eq!(ds.find(x), x);
    }
}

#[test]
fn uniting_merges_sets_and_leaves_the_others() {
    let mut ds = DisjointSet::make_singletons(6);
    ds.unite(0, 1);
    ds.unite(2, 3);
    assert_eq!(ds.find(0), ds.find(1));
    assert_eq!(ds.find(2), ds.find(3));
    assert_ne!(ds.find(0), ds.find(2));
    assert_eq!(ds.find(4), 4);
    ds.unite(1, 3);
    let r = ds.find(0);
    assert_eq!(ds.find(1), r);
    assert_eq!(ds.find(2), r);
    assert_eq!(ds.find(3), r);
    assert_eq!(ds.find(5), 5);
    ds.unite(3, 0);
    assert_eq!(ds.find(2), r);
}

#[test]
fn finding_shortens_the_way_to_the_representative() {
    let mut ds = DisjointSet::make_singletons(4);
    ds.unite(0, 1);
    ds.unite(2, 3);
    ds.unite(0, 2);
    let r = ds.find(3);
    assert_eq!(ds.parent[3], r);
    assert_eq!(ds.find(1), r);
}

#[test]
fn singletons_point_to_themselves_with_rank_zero() {
    let ds = DisjointSet::make_singletons(4);
    assert_eq!(ds.parent, vec![0, 1, 2, 3]);
    assert_eq!(ds.rank, vec![0, 0, 0, 0]);
}

#[test]
fn uniting_keeps_the_representative_of_higher_rank() {
    let mut ds = DisjointSet::make_singletons(3);
    // equal ranks: the first argument's representative stays and grows
    ds.unite(0, 1);
    assert_eq!(ds.find(0), 0);
    assert_eq!(ds.find(1), 0);
    assert_eq!(ds.find(2), 2);
    assert_eq!(ds.rank, vec![1, 0, 0]);
    // the higher rank stays, whichever argument it comes from
    ds.unite(2, 1);
    assert_eq!(ds.find(2), 0);
    assert_eq!(ds.rank, vec![1, 0, 0]);
    // uniting within one set changes nothing
    ds.unite(1, 2);
    assert_eq!(ds.find(1), 0);
    assert_eq!(ds.rank, vec![1, 0, 0]);
}
