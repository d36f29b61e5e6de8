//! Giving every miner a goal of its own, the most valuable pairs first.
//!
//! The pairing is greedy: it takes the best pair that is left, and never
//! looks back. It does not find the pairing of greatest total value.

use vstd::prelude::*;
use vstd::set_lib::{lemma_int_range, lemma_len_subset, set_int_range};

verus! {

/// The table has one row for each goal and in each row one value for each miner.
pub open spec fn table_ok(weights: Seq<Vec<i64>>, miners: int, goals: int) -> bool {
    &&& weights.len() == goals
    &&& forall|g: int| 0 <= g < goals ==> (#[trigger] weights[g]).len() == miners
}

/// Neither the miner nor the goal of the pair `(m, g)` occurs among the
/// first `i` pairs.
pub open spec fn still_open(pairs: Seq<(usize, usize)>, i: int, m: int, g: int) -> bool {
    forall|k: int| 0 <= k < i ==> (#[trigger] pairs[k]).0 != m && pairs[k].1 != g
}

/// What it is worth to send the `m`-th miner to the `g`-th goal.
pub open spec fn worth(weights: Seq<Vec<i64>>, m: int, g: int) -> int {
    weights[g][m] as int
}

/// Neither the miner nor the goal is marked as done.
pub open spec fn both_free(miner_done: Seq<bool>, goal_done: Seq<bool>, m: int, g: int) -> bool {
    !miner_done[m] && !goal_done[g]
}

/// The pair `(m, g)` goes before the pair `(m2, g2)`: it is worth more, or
/// as much and comes first when the table is read goal by goal.
pub open spec fn goes_first(weights: Seq<Vec<i64>>, m: int, g: int, m2: int, g2: int) -> bool {
    weights[g][m] > weights[g2][m2] || (weights[g][m] == weights[g2][m2] && (g < g2 || (g == g2
        && m <= m2)))
}

/// The `i`-th pair is the one that goes first among all pairs whose miner
/// and goal were both still without a partner.
pub open spec fn greedy_step(
    weights: Seq<Vec<i64>>,
    miners: int,
    goals: int,
    pairs: Seq<(usize, usize)>,
    i: int,
) -> bool {
    &&& pairs[i].0 < miners
    &&& pairs[i].1 < goals
    &&& still_open(pairs, i, pairs[i].0 as int, pairs[i].1 as int)
    &&& forall|m: int, g: int|
        0 <= m < miners && 0 <= g < goals && #[trigger] still_open(pairs, i, m, g) ==> goes_first(
            weights,
            pairs[i].0 as int,
            pairs[i].1 as int,
            m,
            g,
        )
}

/// A greedy pairing of all miners.
pub open spec fn greedy_pairing(
    weights: Seq<Vec<i64>>,
    miners: int,
    goals: int,
    pairs: Seq<(usize, usize)>,
) -> bool {
    &&& pairs.len() == miners
    &&& forall|i: int| 0 <= i < miners ==> #[trigger] greedy_step(weights, miners, goals, pairs, i)
}

/// In a greedy pairing no miner and no goal occurs twice, and every miner occurs.
pub proof fn greedy_pairing_is_matching(
    weights: Seq<Vec<i64>>,
    miners: int,
    goals: int,
    pairs: Seq<(usize, usize)>,
)
    requires
        greedy_pairing(weights, miners, goals, pairs),
    ensures
        forall|i: int, j: int|
            0 <= i < j < miners ==> pairs[i].0 != pairs[j].0 && pairs[i].1 != pairs[j].1,
        forall|m: int| 0 <= m < miners ==> #[trigger] used_upto(pairs, miners).contains(m),
{
    assert forall|i: int, j: int| 0 <= i < j < miners implies pairs[i].0 != pairs[j].0
        && pairs[i].1 != pairs[j].1 by {
        assert(greedy_step(weights, miners, goals, pairs, j));
    }
    if miners > 0 {
        lemma_used_count(pairs, miners, miners);
        lemma_int_range(0, miners);
        let all = set_int_range(0, miners);
        assert(used_upto(pairs, miners).subset_of(all)) by {
            assert forall|m: int| used_upto(pairs, miners).contains(m) implies all.contains(m) by {
                let i = choose|i: int| 0 <= i < miners && pairs[i].0 == m;
                assert(greedy_step(weights, miners, goals, pairs, i));
            }
        }
        assert forall|m: int| 0 <= m < miners implies #[trigger] used_upto(
            pairs,
            miners,
        ).contains(m) by {
            if !used_upto(pairs, miners).contains(m) {
                assert(used_upto(pairs, miners).subset_of(all.remove(m)));
                lemma_len_subset(used_upto(pairs, miners), all.remove(m));
            }
        }
    }
}

/// Every pair of a greedy pairing is worth no less than any pair that
/// could have been made in its place, of a miner and a goal that were both
/// still without a partner; so the pairs are worth less and less as the
/// pairing goes on.
pub proof fn greedy_choice_is_best(
    weights: Seq<Vec<i64>>,
    miners: int,
    goals: int,
    pairs: Seq<(usize, usize)>,
    i: int,
)
    requires
        greedy_pairing(weights, miners, goals, pairs),
        0 <= i < miners,
    ensures
        forall|m: int, g: int|
            0 <= m < miners && 0 <= g < goals && #[trigger] still_open(pairs, i, m, g) ==> worth(
                weights,
                pairs[i].0 as int,
                pairs[i].1 as int,
            ) >= worth(weights, m, g),
        forall|j: int|
            i <= j < miners ==> worth(weights, pairs[i].0 as int, pairs[i].1 as int) >= worth(
                weights,
                (#[trigger] pairs[j]).0 as int,
                pairs[j].1 as int,
            ),
{
    assert(greedy_step(weights, miners, goals, pairs, i));
    assert forall|j: int| i <= j < miners implies worth(
        weights,
        pairs[i].0 as int,
        pairs[i].1 as int,
    ) >= worth(weights, (#[trigger] pairs[j]).0 as int, pairs[j].1 as int) by {
        assert(greedy_step(weights, miners, goals, pairs, j));
        assert(still_open(pairs, i, pairs[j].0 as int, pairs[j].1 as int));
    }
}

/// The miners of the first `n` pairs.
pub open spec fn used_upto(pairs: Seq<(usize, usize)>, n: int) -> Set<int> {
    Set::new(|m: int| exists|i: int| 0 <= i < n && pairs[i].0 == m)
}

/// The goals of the first `n` pairs.
pub open spec fn claimed_upto(pairs: Seq<(usize, usize)>, n: int) -> Set<int> {
    Set::new(|g: int| exists|i: int| 0 <= i < n && pairs[i].1 == g)
}

/// The first `n` pairs name `n` miners if no miner is paired twice.
proof fn lemma_used_count(pairs: Seq<(usize, usize)>, n: int, total: int)
    requires
        0 <= n <= total <= pairs.len(),
        forall|i: int, j: int| 0 <= i < j < total ==> pairs[i].0 != pairs[j].0,
    ensures
        used_upto(pairs, n).finite(),
        used_upto(pairs, n).len() == n,
    decreases n,
{
    if n == 0 {
        assert(used_upto(pairs, 0) =~= Set::empty());
    } else {
        lemma_used_count(pairs, n - 1, total);
        let m = pairs[n - 1].0 as int;
        assert(used_upto(pairs, n) =~= used_upto(pairs, n - 1).insert(m)) by {
            assert forall|x: int| used_upto(pairs, n).contains(x) implies used_upto(
                pairs,
                n - 1,
            ).insert(m).contains(x) by {
                let i = choose|i: int| 0 <= i < n && pairs[i].0 == x;
                if i < n - 1 {
                    assert(used_upto(pairs, n - 1).contains(x));
                }
            }
            assert forall|x: int| used_upto(pairs, n - 1).insert(m).contains(x) implies used_upto(
                pairs,
                n,
            ).contains(x) by {
                if x == m {
                    assert(pairs[n - 1].0 == x);
                } else {
                    let i = choose|i: int| 0 <= i < n - 1 && pairs[i].0 == x;
                    assert(pairs[i].0 == x);
                }
            }
        }
        assert(!used_upto(pairs, n - 1).contains(m)) by {
            if used_upto(pairs, n - 1).contains(m) {
                let i = choose|i: int| 0 <= i < n - 1 && pairs[i].0 == m;
                assert(pairs[i].0 != pairs[n - 1].0);
            }
        }
    }
}

/// The first `n` pairs name `n` goals if no goal is paired twice.
proof fn lemma_claimed_count(pairs: Seq<(usize, usize)>, n: int, total: int)
    requires
        0 <= n <= total <= pairs.len(),
        forall|i: int, j: int| 0 <= i < j < total ==> pairs[i].1 != pairs[j].1,
    ensures
        claimed_upto(pairs, n).finite(),
        claimed_upto(pairs, n).len() == n,
    decreases n,
{
    if n == 0 {
        assert(claimed_upto(pairs, 0) =~= Set::empty());
    } else {
        lemma_claimed_count(pairs, n - 1, total);
        let g = pairs[n - 1].1 as int;
        assert(claimed_upto(pairs, n) =~= claimed_upto(pairs, n - 1).insert(g)) by {
            assert forall|x: int| claimed_upto(pairs, n).contains(x) implies claimed_upto(
                pairs,
                n - 1,
            ).insert(g).contains(x) by {
                let i = choose|i: int| 0 <= i < n && pairs[i].1 == x;
                if i < n - 1 {
                    assert(claimed_upto(pairs, n - 1).contains(x));
                }
            }
            assert forall|x: int| claimed_upto(pairs, n - 1).insert(g).contains(
                x,
            ) implies claimed_upto(pairs, n).contains(x) by {
                if x == g {
                    assert(pairs[n - 1].1 == x);
                } else {
                    let i = choose|i: int| 0 <= i < n - 1 && pairs[i].1 == x;
                    assert(pairs[i].1 == x);
                }
            }
        }
        assert(!claimed_upto(pairs, n - 1).contains(g)) by {
            if claimed_upto(pairs, n - 1).contains(g) {
                let i = choose|i: int| 0 <= i < n - 1 && pairs[i].1 == g;
                assert(pairs[i].1 != pairs[n - 1].1);
            }
        }
    }
}

/// While fewer pairs are made than there are miners, and no more miners
/// than goals, a miner and a goal are left without a partner.
proof fn lemma_some_open(pairs: Seq<(usize, usize)>, n: int, miners: int, goals: int) -> (r: (
    int,
    int,
))
    requires
        0 <= n == pairs.len(),
        n < miners <= goals,
        forall|i: int, j: int| 0 <= i < j < n ==> pairs[i].0 != pairs[j].0 && pairs[i].1 != pairs[j].1,
    ensures
        0 <= r.0 < miners,
        0 <= r.1 < goals,
        still_open(pairs, n, r.0, r.1),
{
    lemma_used_count(pairs, n, n);
    lemma_claimed_count(pairs, n, n);
    lemma_int_range(0, miners);
    lemma_int_range(0, goals);
    let ms = set_int_range(0, miners);
    let gs = set_int_range(0, goals);
    if ms.subset_of(used_upto(pairs, n)) {
        lemma_len_subset(ms, used_upto(pairs, n));
    }
    if gs.subset_of(claimed_upto(pairs, n)) {
        lemma_len_subset(gs, claimed_upto(pairs, n));
    }
    let m = choose|m: int| ms.contains(m) && !used_upto(pairs, n).contains(m);
    let g = choose|g: int| gs.contains(g) && !claimed_upto(pairs, n).contains(g);
    assert forall|k: int| 0 <= k < n implies (#[trigger] pairs[k]).0 != m && pairs[k].1 != g by {
        if pairs[k].0 == m {
            assert(used_upto(pairs, n).contains(m));
        }
        if pairs[k].1 == g {
            assert(claimed_upto(pairs, n).contains(g));
        }
    }
    (m, g)
}

/// Pairs every miner with a goal of its own. `weights[g][m]` is what it is
/// worth to send the `m`-th miner to the `g`-th goal. Again and again the
/// pair of greatest worth among the miners and goals still without a partner
/// is made; of several of equal worth, the first when the table is read
/// goal by goal. The pairs are given in the order in which they were made.
#[verifier::spinoff_prover]
pub fn assign_greedy(weights: &Vec<Vec<i64>>, miners: usize, goals: usize) -> (pairs: Vec<
    (usize, usize),
>)
    requires
        table_ok(weights@, miners as int, goals as int),
        miners <= goals,
    ensures
        greedy_pairing(weights@, miners as int, goals as int, pairs@),
{
    let mut pairs: Vec<(usize, usize)> = Vec::new();
    let mut miner_done: Vec<bool> = Vec::new();
    let mut goal_done: Vec<bool> = Vec::new();
    let mut i: usize = 0;
    while i < miners
        invariant
            i <= miners,
            miner_done.len() == i,
            forall|k: int| 0 <= k < i ==> !miner_done[k],
        decreases miners - i,
    {
        miner_done.push(false);
        i += 1;
    }
    i = 0;
    while i < goals
        invariant
            i <= goals,
            goal_done.len() == i,
            forall|k: int| 0 <= k < i ==> !goal_done[k],
        decreases goals - i,
    {
        goal_done.push(false);
        i += 1;
    }
    while pairs.len() < miners
        invariant
            table_ok(weights@, miners as int, goals as int),
            miners <= goals,
            pairs.len() <= miners,
            miner_done.len() == miners,
            goal_done.len() == goals,
            forall|m: int|
                0 <= m < miners ==> (#[trigger] miner_done[m] <==> exists|k: int|
                    0 <= k < pairs.len() && pairs[k].0 == m),
            forall|g: int|
                0 <= g < goals ==> (#[trigger] goal_done[g] <==> exists|k: int|
                    0 <= k < pairs.len() && pairs[k].1 == g),
            forall|k: int|
                0 <= k < pairs.len() ==> #[trigger] greedy_step(
                    weights@,
                    miners as int,
                    goals as int,
                    pairs@,
                    k,
                ),
        decreases miners - pairs.len(),
    {
        let ghost n = pairs.len() as int;
        let ghost so_far = pairs@;
        proof {
            assert forall|a: int, b: int| 0 <= a < b < n implies pairs[a].0 != pairs[b].0
                && pairs[a].1 != pairs[b].1 by {
                assert(greedy_step(weights@, miners as int, goals as int, pairs@, b));
            }
        }
        let mut found = false;
        let mut best_m: usize = 0;
        let mut best_g: usize = 0;
        let mut best_w: i64 = 0;
        let mut g: usize = 0;
        while g < goals
            invariant
                table_ok(weights@, miners as int, goals as int),
                pairs@ == so_far,
                n == pairs.len(),
                g <= goals,
                miner_done.len() == miners,
                goal_done.len() == goals,
                forall|m: int|
                    0 <= m < miners ==> (#[trigger] miner_done[m] <==> exists|k: int|
                        0 <= k < pairs.len() && pairs[k].0 == m),
                forall|gg: int|
                    0 <= gg < goals ==> (#[trigger] goal_done[gg] <==> exists|k: int|
                        0 <= k < pairs.len() && pairs[k].1 == gg),
                found ==> best_m < miners && best_g < g && !miner_done[best_m as int]
                    && !goal_done[best_g as int] && best_w == weights[best_g as int][best_m as int],
                forall|m: int, gg: int|
                    0 <= m < miners && 0 <= gg < g && #[trigger] both_free(
                        miner_done@,
                        goal_done@,
                        m,
                        gg,
                    ) ==> found && worth(weights@, m, gg) <= best_w && (worth(weights@, m, gg)
                        == best_w ==> best_g < gg || (best_g == gg && best_m <= m)),
            decreases goals - g,
        {
            if !goal_done[g] {
                let mut m: usize = 0;
                while m < miners
                    invariant
                        table_ok(weights@, miners as int, goals as int),
                        g < goals,
                        m <= miners,
                        !goal_done[g as int],
                        miner_done.len() == miners,
                        goal_done.len() == goals,
                        found ==> best_m < miners && best_g <= g && !miner_done[best_m as int]
                            && !goal_done[best_g as int] && best_w
                            == weights[best_g as int][best_m as int] && (best_g == g ==> best_m
                            < m),
                        forall|mm: int, gg: int|
                            0 <= mm < miners && 0 <= gg < g && #[trigger] both_free(
                                miner_done@,
                                goal_done@,
                                mm,
                                gg,
                            ) ==> found && worth(weights@, mm, gg) <= best_w && (worth(
                                weights@,
                                mm,
                                gg,
                            ) == best_w ==> best_g < gg || (best_g == gg && best_m <= mm)),
                        forall|mm: int|
                            0 <= mm < m && #[trigger] both_free(
                                miner_done@,
                                goal_done@,
                                mm,
                                g as int,
                            ) ==> found && worth(weights@, mm, g as int) <= best_w && (worth(
                                weights@,
                                mm,
                                g as int,
                            ) == best_w ==> best_g < g || (best_g == g && best_m <= mm)),
                    decreases miners - m,
                {
                    if !miner_done[m] {
                        let a_weight = weights[g][m];
                        if !found || a_weight > best_w {
                            found = true;
                            best_w = a_weight;
                            best_m = m;
                            best_g = g;
                        }
                    }
                    m += 1;
                }
            }
            g += 1;
        }
        proof {
            let open = lemma_some_open(pairs@, n, miners as int, goals as int);
            assert(!miner_done[open.0]) by {
                if miner_done[open.0] {
                    let k = choose|k: int| 0 <= k < pairs.len() && pairs[k].0 == open.0;
                    assert(pairs[k].0 != open.0);
                }
            }
            assert(!goal_done[open.1]) by {
                if goal_done[open.1] {
                    let k = choose|k: int| 0 <= k < pairs.len() && pairs[k].1 == open.1;
                    assert(pairs[k].1 != open.1);
                }
            }
            assert(both_free(miner_done@, goal_done@, open.0, open.1));
            assert(found);
            assert forall|m: int, gg: int|
                0 <= m < miners && 0 <= gg < goals && #[trigger] still_open(
                    so_far,
                    n,
                    m,
                    gg,
                ) implies goes_first(weights@, best_m as int, best_g as int, m, gg) by {
                assert(!miner_done[m]) by {
                    if miner_done[m] {
                        let k = choose|k: int| 0 <= k < pairs.len() && pairs[k].0 == m;
                        assert(so_far[k].0 != m);
                    }
                }
                assert(!goal_done[gg]) by {
                    if goal_done[gg] {
                        let k = choose|k: int| 0 <= k < pairs.len() && pairs[k].1 == gg;
                        assert(so_far[k].1 != gg);
                    }
                }
                assert(both_free(miner_done@, goal_done@, m, gg));
            }
        }
        miner_done.set(best_m, true);
        goal_done.set(best_g, true);
        pairs.push((best_m, best_g));
        proof {
            assert(forall|k: int| 0 <= k < n ==> pairs[k] == so_far[k]);
            assert forall|k: int| 0 <= k < n implies #[trigger] greedy_step(
                weights@,
                miners as int,
                goals as int,
                pairs@,
                k,
            ) by {
                assert(greedy_step(weights@, miners as int, goals as int, so_far, k));
                assert forall|m: int, gg: int|
                    0 <= m < miners && 0 <= gg < goals && #[trigger] still_open(
                        pairs@,
                        k,
                        m,
                        gg,
                    ) implies goes_first(weights@, pairs[k].0 as int, pairs[k].1 as int, m, gg) by {
                    assert(still_open(so_far, k, m, gg));
                }
            }
            assert(greedy_step(weights@, miners as int, goals as int, pairs@, n)) by {
                assert forall|k: int| 0 <= k < n implies (#[trigger] pairs[k]).0 != best_m
                    && pairs[k].1 != best_g by {}
                assert forall|m: int, gg: int|
                    0 <= m < miners && 0 <= gg < goals && #[trigger] still_open(
                        pairs@,
                        n,
                        m,
                        gg,
                    ) implies goes_first(weights@, best_m as int, best_g as int, m, gg) by {
                    assert(still_open(so_far, n, m, gg));
                }
            }
            assert forall|m: int| 0 <= m < miners implies (#[trigger] miner_done[m] <==> exists|k: int|
                0 <= k < pairs.len() && pairs[k].0 == m) by {
                if m == best_m {
                    assert(pairs[n].0 == m);
                } else {
                    if exists|k: int| 0 <= k < n && so_far[k].0 == m {
                        let k = choose|k: int| 0 <= k < n && so_far[k].0 == m;
                        assert(pairs[k].0 == m);
                    }
                    if exists|k: int| 0 <= k < pairs.len() && pairs[k].0 == m {
                        let k = choose|k: int| 0 <= k < pairs.len() && pairs[k].0 == m;
                        assert(so_far[k].0 == m);
                    }
                }
            }
            assert forall|gg: int| 0 <= gg < goals implies (#[trigger] goal_done[gg] <==> exists|k: int|
                0 <= k < pairs.len() && pairs[k].1 == gg) by {
                if gg == best_g {
                    assert(pairs[n].1 == gg);
                } else {
                    if exists|k: int| 0 <= k < n && so_far[k].1 == gg {
                        let k = choose|k: int| 0 <= k < n && so_far[k].1 == gg;
                        assert(pairs[k].1 == gg);
                    }
                    if exists|k: int| 0 <= k < pairs.len() && pairs[k].1 == gg {
                        let k = choose|k: int| 0 <= k < pairs.len() && pairs[k].1 == gg;
                        assert(so_far[k].1 == gg);
                    }
                }
            }
        }
    }
    pairs
}

} // verus!
