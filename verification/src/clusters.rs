//! Goals that lie close together, gathered into clusters.

use vstd::prelude::*;
use crate::bot_logic::DropoffCandidate;
use crate::data::Point;
use crate::disjoint_set::{merged, DisjointSet};
use crate::dropoff::NEARBY_CELLS;
use crate::game::Game;
use crate::goals::has_point;
use crate::lists::lemma_filter_push;

verus! {

/// How far apart two goals may lie to belong to one cluster at once.
pub const CLUSTER_REACH: usize = 2;

impl Game {
    /// The `a`-th and the `b`-th goal lie within reach of each other.
    pub open spec fn near(&self, goals: Seq<Point>, a: int, b: int) -> bool {
        &&& 0 <= a < goals.len()
        &&& 0 <= b < goals.len()
        &&& self.distance(goals[a], goals[b]) <= CLUSTER_REACH
    }

    /// A chain of goals, each within reach of the next.
    pub open spec fn is_chain(&self, goals: Seq<Point>, chain: Seq<int>) -> bool {
        &&& chain.len() >= 1
        &&& forall|k: int| 0 <= k < chain.len() ==> 0 <= #[trigger] chain[k] < goals.len()
        &&& forall|k: int|
            0 <= k < chain.len() - 1 ==> self.near(goals, #[trigger] chain[k], chain[k + 1])
    }

    /// The `a`-th and the `b`-th goal belong to one cluster: a chain of
    /// goals leads from the one to the other.
    pub open spec fn linked(&self, goals: Seq<Point>, a: int, b: int) -> bool {
        exists|chain: Seq<int>| #[trigger]
            self.is_chain(goals, chain) && chain[0] == a && chain.last() == b
    }

    /// Every goal is linked to itself.
    pub proof fn lemma_linked_self(&self, goals: Seq<Point>, a: int)
        requires
            0 <= a < goals.len(),
        ensures
            self.linked(goals, a, a),
    {
        let chain = seq![a];
        assert(self.is_chain(goals, chain));
    }

    /// Goals within reach of each other are linked.
    pub proof fn lemma_near_linked(&self, goals: Seq<Point>, a: int, b: int)
        requires
            self.near(goals, a, b),
        ensures
            self.linked(goals, a, b),
    {
        let chain = seq![a, b];
        assert(self.is_chain(goals, chain));
        assert(chain[0] == a && chain.last() == b);
    }

    /// Two chains that meet make one chain.
    pub proof fn lemma_linked_trans(&self, goals: Seq<Point>, a: int, b: int, c: int)
        requires
            self.linked(goals, a, b),
            self.linked(goals, b, c),
        ensures
            self.linked(goals, a, c),
    {
        let first = choose|chain: Seq<int>| #[trigger]
            self.is_chain(goals, chain) && chain[0] == a && chain.last() == b;
        let second = choose|chain: Seq<int>| #[trigger]
            self.is_chain(goals, chain) && chain[0] == b && chain.last() == c;
        let chain = first + second.subrange(1, second.len() as int);
        assert(self.is_chain(goals, chain)) by {
            assert forall|k: int| 0 <= k < chain.len() implies 0 <= #[trigger] chain[k] < goals.len() by {
                if k < first.len() {
                    assert(chain[k] == first[k]);
                } else {
                    assert(chain[k] == second[k - first.len() + 1]);
                }
            }
            assert forall|k: int| 0 <= k < chain.len() - 1 implies self.near(
                goals,
                #[trigger] chain[k],
                chain[k + 1],
            ) by {
                if k < first.len() - 1 {
                    assert(chain[k] == first[k] && chain[k + 1] == first[k + 1]);
                } else if k == first.len() - 1 {
                    assert(chain[k] == first.last());
                    assert(chain[k + 1] == second[1]);
                    assert(self.near(goals, second[0], second[1]));
                } else {
                    let m = k - first.len() + 1;
                    assert(chain[k] == second[m] && chain[k + 1] == second[m + 1]);
                }
            }
        }
        assert(chain[0] == a);
        if second.len() == 1 {
            assert(chain =~= first);
        } else {
            assert(chain.last() == second.last());
        }
    }

    /// A chain read backwards is a chain.
    pub proof fn lemma_linked_back(&self, goals: Seq<Point>, a: int, b: int)
        requires
            self.dims_ok(),
            self.linked(goals, a, b),
        ensures
            self.linked(goals, b, a),
    {
        let chain = choose|chain: Seq<int>| #[trigger]
            self.is_chain(goals, chain) && chain[0] == a && chain.last() == b;
        let back = chain.reverse();
        assert(self.is_chain(goals, back)) by {
            assert forall|k: int| 0 <= k < back.len() implies 0 <= #[trigger] back[k] < goals.len() by {
                assert(back[k] == chain[chain.len() - 1 - k]);
            }
            assert forall|k: int| 0 <= k < back.len() - 1 implies self.near(
                goals,
                #[trigger] back[k],
                back[k + 1],
            ) by {
                let m = chain.len() - 2 - k;
                assert(back[k] == chain[m + 1]);
                assert(back[k + 1] == chain[m]);
                assert(self.near(goals, chain[m], chain[m + 1]));
                crate::geometry::distance_is_symmetric(
                    self.w(),
                    self.h(),
                    goals[chain[m]],
                    goals[chain[m + 1]],
                );
            }
        }
        assert(back[0] == chain.last());
        assert(back.last() == chain[0]);
    }

    /// Goals that are linked are in one set once every two goals within
    /// reach of each other are.
    pub proof fn lemma_linked_same_set(&self, goals: Seq<Point>, ds: DisjointSet, chain: Seq<int>, k: int)
        requires
            self.is_chain(goals, chain),
            0 <= k < chain.len(),
            forall|a: int, b: int| #[trigger] self.near(goals, a, b) ==> ds.same_set(a, b),
        ensures
            ds.same_set(chain[0], chain[k]),
        decreases k,
    {
        if k > 0 {
            self.lemma_linked_same_set(goals, ds, chain, k - 1);
            assert(self.near(goals, chain[k - 1], chain[k]));
        }
    }

    /// For every goal a mark of its cluster: two goals bear one mark just
    /// when they belong to one cluster.
    #[verifier::spinoff_prover]
    pub fn cluster_marks(&self, goals: &Vec<Point>) -> (marks: Vec<usize>)
        requires
            self.dims_ok(),
            forall|i: int| 0 <= i < goals.len() ==> self.contains(#[trigger] goals[i]),
        ensures
            marks.len() == goals.len(),
            forall|a: int, b: int|
                0 <= a < goals.len() && 0 <= b < goals.len() ==> (#[trigger] marks[a] == #[trigger] marks[b]
                    <==> self.linked(goals@, a, b)),
    {
        let n = goals.len();
        let mut ds = DisjointSet::make_singletons(n);
        proof {
            assert forall|a: int, b: int|
                0 <= a < n && 0 <= b < n && #[trigger] ds.same_set(a, b) implies self.linked(
                goals@,
                a,
                b,
            ) by {
                assert(ds.root(a) == a && ds.root(b) == b);
                self.lemma_linked_self(goals@, a);
            }
        }
        let mut i: usize = 0;
        while i < n
            invariant
                self.dims_ok(),
                n == goals.len(),
                forall|k: int| 0 <= k < goals.len() ==> self.contains(#[trigger] goals[k]),
                ds.wf(),
                ds.size == n,
                i <= n,
                forall|a: int, b: int|
                    0 <= a < n && 0 <= b < n && #[trigger] ds.same_set(a, b) ==> self.linked(
                        goals@,
                        a,
                        b,
                    ),
                forall|a: int, b: int|
                    0 <= a < i && a < b < n && #[trigger] self.near(goals@, a, b) ==> ds.same_set(a, b),
            decreases n - i,
        {
            let mut j: usize = i + 1;
            while j < n
                invariant
                    self.dims_ok(),
                    n == goals.len(),
                    forall|k: int| 0 <= k < goals.len() ==> self.contains(#[trigger] goals[k]),
                    ds.wf(),
                    ds.size == n,
                    i < n,
                    i < j <= n,
                    forall|a: int, b: int|
                        0 <= a < n && 0 <= b < n && #[trigger] ds.same_set(a, b) ==> self.linked(
                            goals@,
                            a,
                            b,
                        ),
                    forall|a: int, b: int|
                        0 <= a < i && a < b < n && #[trigger] self.near(goals@, a, b) ==> ds.same_set(
                            a,
                            b,
                        ),
                    forall|b: int|
                        i < b < j && #[trigger] self.near(goals@, i as int, b) ==> ds.same_set(
                            i as int,
                            b,
                        ),
                decreases n - j,
            {
                let ghost before = ds;
                if self.dist(goals[i], goals[j]) <= CLUSTER_REACH {
                    ds.unite(i, j);
                    proof {
                        self.lemma_near_linked(goals@, i as int, j as int);
                        self.lemma_linked_back(goals@, i as int, j as int);
                        assert forall|a: int, b: int|
                            0 <= a < n && 0 <= b < n && #[trigger] ds.same_set(
                                a,
                                b,
                            ) implies self.linked(goals@, a, b) by {
                            assert(merged(before, i as int, j as int, a, b));
                            if before.same_set(a, b) {
                            } else if before.same_set(a, i as int) && before.same_set(b, j as int) {
                                assert(before.same_set(j as int, b));
                                self.lemma_linked_trans(goals@, a, i as int, j as int);
                                self.lemma_linked_trans(goals@, a, j as int, b);
                            } else {
                                assert(before.same_set(a, j as int) && before.same_set(b, i as int));
                                assert(before.same_set(i as int, b));
                                self.lemma_linked_trans(goals@, a, j as int, i as int);
                                self.lemma_linked_trans(goals@, a, i as int, b);
                            }
                        }
                        assert forall|a: int, b: int|
                            0 <= a < n && 0 <= b < n && before.same_set(a, b) implies #[trigger] ds.same_set(
                            a,
                            b,
                        ) by {
                            assert(merged(before, i as int, j as int, a, b));
                        }
                    }
                }
                j += 1;
            }
            i += 1;
        }
        let ghost united = ds;
        proof {
            assert forall|a: int, b: int| #[trigger] self.near(goals@, a, b) implies united.same_set(
                a,
                b,
            ) by {
                if a < b {
                } else if b < a {
                    crate::geometry::distance_is_symmetric(self.w(), self.h(), goals@[a], goals@[b]);
                    assert(self.near(goals@, b, a));
                    assert(united.same_set(b, a));
                }
            }
        }
        let mut marks: Vec<usize> = Vec::new();
        let mut r: usize = 0;
        while r < n
            invariant
                ds.wf(),
                ds.size == n,
                r <= n,
                marks.len() == r,
                forall|y: int| 0 <= y < n ==> #[trigger] ds.root(y) == united.root(y),
                forall|y: int| 0 <= y < r ==> #[trigger] marks[y] == united.root(y),
            decreases n - r,
        {
            let root = ds.find(r);
            marks.push(root);
            r += 1;
        }
        proof {
            assert forall|a: int, b: int| 0 <= a < goals.len() && 0 <= b < goals.len() implies (
            #[trigger] marks[a] == #[trigger] marks[b] <==> self.linked(goals@, a, b)) by {
                if self.linked(goals@, a, b) {
                    let chain = choose|chain: Seq<int>| #[trigger]
                        self.is_chain(goals@, chain) && chain[0] == a && chain.last() == b;
                    self.lemma_linked_same_set(goals@, united, chain, chain.len() - 1);
                }
                if marks[a] == marks[b] {
                    assert(united.same_set(a, b));
                }
            }
        }
        marks
    }
}

/// The points of a list, each once, in the order in which they first occur.
pub open spec fn firsts(v: Seq<Point>) -> Seq<Point>
    decreases v.len(),
{
    if v.len() == 0 {
        Seq::empty()
    } else if firsts(v.drop_last()).contains(v.last()) {
        firsts(v.drop_last())
    } else {
        firsts(v.drop_last()).push(v.last())
    }
}

/// The first occurrences are points of the list, and no more than it has.
pub proof fn lemma_firsts(v: Seq<Point>)
    ensures
        firsts(v).len() <= v.len(),
        forall|p: Point| #[trigger] firsts(v).contains(p) <==> v.contains(p),
    decreases v.len(),
{
    if v.len() > 0 {
        let head = v.drop_last();
        lemma_firsts(head);
        assert forall|p: Point| #[trigger] firsts(v).contains(p) <==> v.contains(p) by {
            if firsts(v).contains(p) {
                if firsts(head).contains(p) {
                    let j = choose|j: int| 0 <= j < head.len() && head[j] == p;
                    assert(v[j] == p);
                } else {
                    let k = choose|k: int| 0 <= k < firsts(v).len() && firsts(v)[k] == p;
                    if k < firsts(head).len() {
                        assert(firsts(head)[k] == p);
                    }
                    assert(v[v.len() - 1] == p);
                }
            }
            if v.contains(p) {
                let j = choose|j: int| 0 <= j < v.len() && v[j] == p;
                if j < head.len() {
                    assert(head[j] == p);
                    assert(firsts(head).contains(p));
                    let k = choose|k: int| 0 <= k < firsts(head).len() && firsts(head)[k] == p;
                    assert(firsts(v)[k] == p);
                } else if !firsts(head).contains(p) {
                    assert(firsts(v)[firsts(v).len() - 1] == p);
                }
            }
        }
    }
}

/// The points of `v`, each once, in the order in which they first occur.
#[verifier::spinoff_prover]
pub fn distinct_points(v: &Vec<Point>) -> (u: Vec<Point>)
    ensures
        u@ == firsts(v@),
{
    let mut u: Vec<Point> = Vec::new();
    let mut i: usize = 0;
    assert(v@.subrange(0, 0) =~= Seq::<Point>::empty());
    while i < v.len()
        invariant
            i <= v.len(),
            u@ == firsts(v@.subrange(0, i as int)),
        decreases v.len() - i,
    {
        let p = v[i];
        assert(v@.subrange(0, i as int + 1).drop_last() =~= v@.subrange(0, i as int));
        if !has_point(&u, p) {
            u.push(p);
        }
        i += 1;
    }
    assert(v@.subrange(0, v.len() as int) =~= v@);
    u
}

/// A new deposit site at `center` would pay: the average of what its
/// neighbourhood holds and three for every step from the existing sites
/// come to more than 310, and it lies far enough from the existing sites.
pub open spec fn site_pays(game: Game, spacing: int, center: Point) -> bool {
    &&& game.nearby_halite(center) + 3 * NEARBY_CELLS * game.nearest_drop_pt_dist.at_pos(center)
        > 310 * NEARBY_CELLS
    &&& game.nearest_drop_pt_dist.at_pos(center) >= spacing
}

/// The numbers from 0 up to `n`.
pub open spec fn indices(n: nat) -> Seq<usize> {
    Seq::new(n, |i: int| i as usize)
}

impl Game {
    /// The goals of the cluster of the `lead`-th goal, in their order.
    pub open spec fn members(&self, goals: Seq<Point>, lead: int) -> Seq<usize> {
        indices(goals.len()).filter(|g: usize| self.linked(goals, lead, g as int))
    }

    /// How far the first `n` goals of a group lie from the `a`-th goal in sum.
    pub open spec fn total_dist(&self, goals: Seq<Point>, group: Seq<usize>, a: int, n: int) -> int
        decreases n,
    {
        if n <= 0 {
            0
        } else {
            self.total_dist(goals, group, a, n - 1) + self.distance(goals[a], goals[group[n - 1] as int])
        }
    }

    /// How far the goals of a group lie from its `m`-th goal in sum.
    pub open spec fn spread(&self, goals: Seq<Point>, group: Seq<usize>, m: int) -> int {
        self.total_dist(goals, group, group[m] as int, group.len() as int)
    }

    /// The `k`-th goal of the group is its centre and `least` its spread,
    /// counted as 1000 at most: no goal of the group has the others nearer in
    /// sum, and no goal before it has them as near. Where no goal has the
    /// others nearer than 1000 in sum, the first goal is the centre.
    pub open spec fn is_center(&self, goals: Seq<Point>, group: Seq<usize>, k: int, least: int) -> bool {
        &&& 0 <= k < group.len()
        &&& 0 <= least <= 1000
        &&& forall|m: int| 0 <= m < group.len() ==> least <= #[trigger] self.spread(goals, group, m)
        &&& if least < 1000 {
            self.spread(goals, group, k) == least && forall|m: int|
                0 <= m < k ==> least < #[trigger] self.spread(goals, group, m)
        } else {
            k == 0
        }
    }

    /// The `lead`-th goal is the first of its cluster.
    pub open spec fn is_leader(&self, goals: Seq<Point>, lead: int) -> bool {
        &&& 0 <= lead < goals.len()
        &&& forall|e: int| 0 <= e < lead ==> !#[trigger] self.linked(goals, e, lead)
    }

    /// The reach of a candidate whose cluster of `size` goals has the
    /// spread `least`: the average distance from the centre and two, 5 at most.
    pub open spec fn reach_of(least: int, size: int) -> int {
        if least / size + 2 < 5 {
            least / size + 2
        } else {
            5
        }
    }

    /// The cluster led by the `lead`-th goal yields the candidate `cand`:
    /// it has three goals or more, `cand` is its centre with the reach that
    /// fits its spread, the centre is not known as a candidate yet, and a site
    /// there would pay.
    pub open spec fn site_of(
        &self,
        goals: Seq<Point>,
        spacing: int,
        known: Seq<DropoffCandidate>,
        lead: int,
        cand: DropoffCandidate,
    ) -> bool {
        let group = self.members(goals, lead);
        &&& self.is_leader(goals, lead)
        &&& group.len() >= 3
        &&& exists|k: int, least: int| #[trigger]
            self.is_center(goals, group, k, least) && cand.center == goals[group[k] as int]
                && cand.dist == Self::reach_of(least, group.len() as int)
        &&& forall|j: int| 0 <= j < known.len() ==> (#[trigger] known[j]).center != cand.center
        &&& site_pays(*self, spacing, cand.center)
    }

    /// The cluster led by the `lead`-th goal yields a candidate.
    pub open spec fn has_site(
        &self,
        goals: Seq<Point>,
        spacing: int,
        known: Seq<DropoffCandidate>,
        lead: int,
    ) -> bool {
        exists|cand: DropoffCandidate| #[trigger] self.site_of(goals, spacing, known, lead, cand)
    }

    /// The candidates `added` are those that the clusters of the goals
    /// yield, one for each cluster that yields one, in the order of the
    /// clusters' first goals, which are `leads`.
    pub open spec fn sites_found(
        &self,
        goals: Seq<Point>,
        spacing: int,
        known: Seq<DropoffCandidate>,
        added: Seq<DropoffCandidate>,
        leads: Seq<int>,
    ) -> bool {
        &&& added.len() == leads.len()
        &&& forall|k: int|
            0 <= k < leads.len() ==> self.site_of(goals, spacing, known, #[trigger] leads[k], added[k])
        &&& forall|k: int, l: int| 0 <= k < l < leads.len() ==> leads[k] < leads[l]
        &&& forall|lead: int| #[trigger]
            self.has_site(goals, spacing, known, lead) ==> leads.contains(lead)
    }

    /// The goals that bear the mark of the `lead`-th goal, in their order.
    fn group_of(&self, Ghost(goals): Ghost<Seq<Point>>, marks: &Vec<usize>, lead: usize) -> (group: Vec<
        usize,
    >)
        requires
            marks.len() == goals.len(),
            lead < marks.len(),
            forall|a: int, b: int|
                0 <= a < goals.len() && 0 <= b < goals.len() ==> (#[trigger] marks[a] == #[trigger] marks[b]
                    <==> self.linked(goals, a, b)),
        ensures
            group@ == self.members(goals, lead as int),
            forall|k: int| 0 <= k < group.len() ==> (#[trigger] group[k]) < goals.len(),
    {
        let n = marks.len();
        let ghost keep = |g: usize| self.linked(goals, lead as int, g as int);
        let mut group: Vec<usize> = Vec::new();
        let mut g: usize = 0;
        assert(indices(n as nat).subrange(0, 0) =~= Seq::<usize>::empty());
        while g < n
            invariant
                n == marks.len(),
                n == goals.len(),
                lead < n,
                g <= n,
                keep == |x: usize| self.linked(goals, lead as int, x as int),
                forall|a: int, b: int|
                    0 <= a < goals.len() && 0 <= b < goals.len() ==> (#[trigger] marks[a] == #[trigger] marks[b]
                        <==> self.linked(goals, a, b)),
                group@ == indices(n as nat).subrange(0, g as int).filter(keep),
                forall|k: int| 0 <= k < group.len() ==> (#[trigger] group[k]) < g,
            decreases n - g,
        {
            proof {
                assert(indices(n as nat).subrange(0, g as int + 1) =~= indices(n as nat).subrange(
                    0,
                    g as int,
                ).push(g));
                lemma_filter_push(indices(n as nat).subrange(0, g as int), keep, g);
                assert(marks[lead as int] == marks[g as int] <==> self.linked(goals, lead as int, g as int));
            }
            if marks[g] == marks[lead] {
                group.push(g);
            }
            g += 1;
        }
        assert(indices(n as nat).subrange(0, n as int) =~= indices(n as nat));
        group
    }

    /// The centre of a group of goals and its spread, counted as 1000 at most.
    fn pick_center(&self, goals: &Vec<Point>, group: &Vec<usize>) -> (r: (usize, u64))
        requires
            self.dims_ok(),
            group.len() >= 1,
            forall|i: int| 0 <= i < goals.len() ==> self.contains(#[trigger] goals[i]),
            forall|k: int| 0 <= k < group.len() ==> (#[trigger] group[k]) < goals.len(),
        ensures
            self.is_center(goals@, group@, r.0 as int, r.1 as int),
    {
        let mut center: usize = 0;
        let mut min_dist_total: u64 = 1000;
        let mut a: usize = 0;
        while a < group.len()
            invariant
                self.dims_ok(),
                group.len() >= 1,
                forall|i: int| 0 <= i < goals.len() ==> self.contains(#[trigger] goals[i]),
                forall|k: int| 0 <= k < group.len() ==> (#[trigger] group[k]) < goals.len(),
                a <= group.len(),
                center < group.len(),
                min_dist_total <= 1000,
                forall|m: int| 0 <= m < a ==> min_dist_total <= #[trigger] self.spread(goals@, group@, m),
                if min_dist_total < 1000 {
                    center < a && self.spread(goals@, group@, center as int) == min_dist_total
                        && forall|m: int|
                        0 <= m < center ==> min_dist_total < #[trigger] self.spread(goals@, group@, m)
                } else {
                    center == 0
                },
            decreases group.len() - a,
        {
            let mut dist_total: u128 = 0;
            let mut b: usize = 0;
            while b < group.len()
                invariant
                    self.dims_ok(),
                    forall|i: int| 0 <= i < goals.len() ==> self.contains(#[trigger] goals[i]),
                    forall|k: int| 0 <= k < group.len() ==> (#[trigger] group[k]) < goals.len(),
                    a < group.len(),
                    b <= group.len(),
                    dist_total == self.total_dist(goals@, group@, group[a as int] as int, b as int),
                    dist_total <= b * 32768,
                decreases group.len() - b,
            {
                dist_total = dist_total + (self.dist(goals[group[a]], goals[group[b]]) as u128);
                b += 1;
            }
            if dist_total < min_dist_total as u128 {
                center = a;
                min_dist_total = dist_total as u64;
            }
            a += 1;
        }
        (center, min_dist_total)
    }
}

/// The candidates that the clusters of the goals `v_goals` yield and
/// that are not among the candidates `known`.
#[verifier::spinoff_prover]
pub fn new_sites(game: &Game, v_goals: &Vec<Point>, known: &Vec<DropoffCandidate>, spacing: usize) -> (added:
    Vec<DropoffCandidate>)
    requires
        game.wf(),
        forall|i: int| 0 <= i < v_goals.len() ==> game.contains(#[trigger] v_goals[i]),
    ensures
        exists|leads: Seq<int>| #[trigger]
            game.sites_found(firsts(v_goals@), spacing as int, known@, added@, leads),
        forall|i: int| 0 <= i < added.len() ==> game.contains((#[trigger] added[i]).center),
{
    let goal_pos = distinct_points(v_goals);
    let num_pos = goal_pos.len();
    let ghost goals = goal_pos@;
    proof {
        lemma_firsts(v_goals@);
        assert forall|i: int| 0 <= i < goal_pos.len() implies game.contains(#[trigger] goal_pos[i]) by {
            assert(goals.contains(goal_pos[i]));
            let j = choose|j: int| 0 <= j < v_goals@.len() && v_goals@[j] == goal_pos[i];
            assert(game.contains(v_goals[j]));
        }
    }
    let marks = game.cluster_marks(&goal_pos);
    let mut added: Vec<DropoffCandidate> = Vec::new();
    let ghost mut leads: Seq<int> = Seq::empty();
    let mut lead: usize = 0;
    while lead < num_pos
        invariant
            game.wf(),
            num_pos == goal_pos.len(),
            goals == goal_pos@,
            marks.len() == num_pos,
            lead <= num_pos,
            forall|i: int| 0 <= i < goal_pos.len() ==> game.contains(#[trigger] goal_pos[i]),
            forall|a: int, b: int|
                0 <= a < goals.len() && 0 <= b < goals.len() ==> (#[trigger] marks[a] == #[trigger] marks[b]
                    <==> game.linked(goals, a, b)),
            added.len() == leads.len(),
            forall|k: int|
                0 <= k < leads.len() ==> game.site_of(
                    goals,
                    spacing as int,
                    known@,
                    #[trigger] leads[k],
                    added[k],
                ) && leads[k] < lead,
            forall|k: int, l: int| 0 <= k < l < leads.len() ==> leads[k] < leads[l],
            forall|x: int|
                x < lead && #[trigger] game.has_site(goals, spacing as int, known@, x) ==> leads.contains(
                    x,
                ),
            forall|i: int| 0 <= i < added.len() ==> game.contains((#[trigger] added[i]).center),
        decreases num_pos - lead,
    {
        let ghost had = leads;
        let ghost had_added = added@;
        let mut first = true;
        let mut e: usize = 0;
        while e < lead
            invariant
                e <= lead,
                lead < num_pos,
                marks.len() == num_pos,
                first == forall|x: int| 0 <= x < e ==> marks[x] != marks[lead as int],
            decreases lead - e,
        {
            if marks[e] == marks[lead] {
                first = false;
            }
            e += 1;
        }
        proof {
            if !first {
                let x = choose|x: int| 0 <= x < lead && marks[x] == marks[lead as int];
                assert(game.linked(goals, x, lead as int));
                assert(!game.is_leader(goals, lead as int));
            } else {
                assert(game.is_leader(goals, lead as int)) by {
                    assert forall|x: int| 0 <= x < lead implies !#[trigger] game.linked(
                        goals,
                        x,
                        lead as int,
                    ) by {
                        assert(marks[x] != marks[lead as int]);
                    }
                }
            }
        }
        let mut found: Option<DropoffCandidate> = None;
        if first {
            let group = game.group_of(Ghost(goals), &marks, lead);
            if group.len() >= 3 {
                let (k, least) = game.pick_center(&goal_pos, &group);
                let center = goal_pos[group[k]];
                let mut is_known = false;
                let mut c: usize = 0;
                while c < known.len()
                    invariant
                        c <= known.len(),
                        is_known == exists|j: int| 0 <= j < c && (#[trigger] known[j]).center == center,
                    decreases known.len() - c,
                {
                    let there = known[c].center;
                    if there.x == center.x && there.y == center.y {
                        is_known = true;
                    }
                    c += 1;
                }
                if !is_known {
                    let spread: u64 = least / (group.len() as u64) + 2;
                    let dist: usize = if spread < 5 { spread as usize } else { 5 };
                    let nearby_halite = game.nearby(center);
                    let drop_dist = *game.nearest_drop_pt_dist.get(center);
                    proof {
                        crate::vmaps::lemma_distance_bound(
                            game.w(),
                            game.h(),
                            center,
                            game.my_drop_pts@[game.nearest_drop_pt_idx.at_pos(center) as int],
                        );
                        assert(crate::vmaps::first_nearest(
                            game.w(),
                            game.h(),
                            game.my_drop_pts@,
                            center,
                            game.nearest_drop_pt_idx.at_pos(center) as int,
                        ));
                    }
                    if nearby_halite + 3 * NEARBY_CELLS * (drop_dist as u64) > 310 * NEARBY_CELLS
                        && drop_dist >= spacing {
                        let cand = DropoffCandidate { center, dist };
                        proof {
                            assert(game.is_center(goals, group@, k as int, least as int));
                            assert(group@ == game.members(goals, lead as int));
                            assert(cand.center == goals[group@[k as int] as int]);
                            assert(cand.dist == Game::reach_of(least as int, group@.len() as int));
                            assert(forall|j: int|
                                0 <= j < known.len() ==> (#[trigger] known[j]).center != cand.center);
                            assert(site_pays(*game, spacing as int, cand.center));
                            assert(game.site_of(goals, spacing as int, known@, lead as int, cand));
                        }
                        found = Some(cand);
                    }
                }
                proof {
                    if found.is_none() {
                        // the centre of a cluster is one goal with one spread
                        assert forall|cand: DropoffCandidate| !#[trigger] game.site_of(
                            goals,
                            spacing as int,
                            known@,
                            lead as int,
                            cand,
                        ) by {
                            if game.site_of(goals, spacing as int, known@, lead as int, cand) {
                                let (k2, least2) = choose|k2: int, least2: int| #[trigger]
                                    game.is_center(goals, group@, k2, least2) && cand.center
                                        == goals[group@[k2] as int] && cand.dist == Game::reach_of(
                                        least2,
                                        group@.len() as int,
                                    );
                                game.lemma_center_unique(goals, group@, k as int, least as int, k2, least2);
                                if is_known {
                                    let j = choose|j: int|
                                        0 <= j < known.len() && (#[trigger] known[j]).center == center;
                                    assert(known[j].center == cand.center);
                                }
                            }
                        }
                    }
                }
            }
        }
        match found {
            Some(cand) => {
                added.push(cand);
                proof {
                    leads = leads.push(lead as int);
                    assert forall|x: int|
                        x < lead + 1 && #[trigger] game.has_site(
                            goals,
                            spacing as int,
                            known@,
                            x,
                        ) implies leads.contains(x) by {
                        if x < lead {
                            assert(had.contains(x));
                            let k = choose|k: int| 0 <= k < had.len() && had[k] == x;
                            assert(leads[k] == x);
                        } else {
                            assert(leads[leads.len() - 1] == x);
                        }
                    }
                    assert forall|k: int| 0 <= k < leads.len() implies game.site_of(
                        goals,
                        spacing as int,
                        known@,
                        #[trigger] leads[k],
                        added[k],
                    ) && leads[k] < lead + 1 by {
                        if k < had.len() {
                            assert(leads[k] == had[k]);
                            assert(added[k] == had_added[k]);
                        }
                    }
                }
            },
            None => {
                proof {
                    assert(!game.has_site(goals, spacing as int, known@, lead as int));
                    assert forall|x: int|
                        x < lead + 1 && #[trigger] game.has_site(
                            goals,
                            spacing as int,
                            known@,
                            x,
                        ) implies leads.contains(x) by {
                        assert(x < lead);
                    }
                }
            },
        }
        lead += 1;
    }
    proof {
        assert forall|x: int| #[trigger]
            game.has_site(goals, spacing as int, known@, x) implies leads.contains(x) by {
            let cand = choose|cand: DropoffCandidate| #[trigger]
                game.site_of(goals, spacing as int, known@, x, cand);
            assert(game.is_leader(goals, x));
        }
        assert(game.sites_found(goals, spacing as int, known@, added@, leads));
    }
    added
}

impl Game {
    /// A group has one centre and one spread.
    pub proof fn lemma_center_unique(
        &self,
        goals: Seq<Point>,
        group: Seq<usize>,
        k1: int,
        least1: int,
        k2: int,
        least2: int,
    )
        requires
            self.is_center(goals, group, k1, least1),
            self.is_center(goals, group, k2, least2),
        ensures
            k1 == k2,
            least1 == least2,
    {
        if least1 < 1000 {
            assert(least2 <= self.spread(goals, group, k1));
        }
        if least2 < 1000 {
            assert(least1 <= self.spread(goals, group, k2));
        }
        if least1 < 1000 && least2 < 1000 {
            if k1 < k2 {
                assert(least2 < self.spread(goals, group, k1));
            } else if k2 < k1 {
                assert(least1 < self.spread(goals, group, k2));
            }
        }
    }
}

} // verus!
