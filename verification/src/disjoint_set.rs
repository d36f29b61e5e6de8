//! A partition of `0..size` into sets that can be merged.

use vstd::prelude::*;

verus! {

/// A forest in which every element points towards the representative of
/// its set. A representative points to itself.
pub struct DisjointSet {
    pub size: usize,
    pub parent: Vec<usize>,
    pub rank: Vec<usize>,
    /// For every element, a bound on its distance from its representative:
    /// it falls with every step towards the representative.
    pub depth: Ghost<Seq<nat>>,
    /// For every representative, a number of elements that its set can
    /// claim for itself; the claims of all sets together are within `size`.
    pub weight: Ghost<Seq<nat>>,
}

/// What the representatives among the first `n` elements claim together.
pub open spec fn claimed(parent: Seq<usize>, weight: Seq<nat>, n: int) -> nat
    decreases n,
{
    if n <= 0 {
        0
    } else if parent[n - 1] == n - 1 {
        claimed(parent, weight, n - 1) + weight[n - 1]
    } else {
        claimed(parent, weight, n - 1)
    }
}

/// A representative claims no more than all representatives together.
pub proof fn lemma_claim_within(parent: Seq<usize>, weight: Seq<nat>, n: int, r: int)
    requires
        0 <= r < n,
        parent[r] == r,
    ensures
        weight[r] <= claimed(parent, weight, n),
    decreases n,
{
    if r < n - 1 {
        lemma_claim_within(parent, weight, n - 1, r);
    }
}

/// What is claimed depends on who is a representative, and on nothing
/// else of the parents.
pub proof fn lemma_claim_same(parent: Seq<usize>, moved: Seq<usize>, weight: Seq<nat>, n: int)
    requires
        0 <= n <= parent.len(),
        moved.len() == parent.len(),
        forall|i: int| 0 <= i < n ==> (#[trigger] parent[i] == i) == (moved[i] == i),
    ensures
        claimed(moved, weight, n) == claimed(parent, weight, n),
    decreases n,
{
    if n > 0 {
        lemma_claim_same(parent, moved, weight, n - 1);
        assert((parent[n - 1] == n - 1) == (moved[n - 1] == n - 1));
    }
}

/// Where the representative `a` is hung below the representative `b` and
/// hands its claim over, as much is claimed as before.
pub proof fn lemma_claim_link(parent: Seq<usize>, weight: Seq<nat>, a: int, b: int, n: int)
    requires
        0 <= n <= parent.len(),
        weight.len() == parent.len(),
        0 <= a < parent.len(),
        0 <= b < parent.len(),
        parent[a] == a,
        parent[b] == b,
        a != b,
    ensures
        claimed(parent.update(a, b as usize), weight.update(b, weight[b] + weight[a]), n) + (if a
            < n {
            weight[a]
        } else {
            0
        }) == claimed(parent, weight, n) + (if b < n {
            weight[a]
        } else {
            0
        }),
    decreases n,
{
    if n > 0 {
        lemma_claim_link(parent, weight, a, b, n - 1);
    }
}

/// Where every element is a representative and claims one, the first `n`
/// claim `n`.
pub proof fn lemma_claim_alone(parent: Seq<usize>, weight: Seq<nat>, n: int)
    requires
        0 <= n <= parent.len(),
        weight.len() == parent.len(),
        forall|i: int| 0 <= i < n ==> parent[i] == i && weight[i] == 1,
    ensures
        claimed(parent, weight, n) == n,
    decreases n,
{
    if n > 0 {
        lemma_claim_alone(parent, weight, n - 1);
    }
}

/// The representative that `x` leads to.
pub open spec fn root_of(parent: Seq<usize>, depth: Seq<nat>, x: int) -> int
    decreases depth[x],
{
    if 0 <= x < parent.len() && parent[x] != x && 0 <= parent[x] < parent.len()
        && depth[parent[x] as int] < depth[x] {
        root_of(parent, depth, parent[x] as int)
    } else {
        x
    }
}

/// Every element points to an element, and towards its representative.
pub open spec fn forest_ok(parent: Seq<usize>, depth: Seq<nat>) -> bool {
    &&& depth.len() == parent.len()
    &&& forall|i: int|
        0 <= i < parent.len() ==> (#[trigger] parent[i]) < parent.len() && (parent[i] != i
            ==> depth[parent[i] as int] < depth[i])
}

/// The representative is an element that points to itself.
pub proof fn lemma_root(parent: Seq<usize>, depth: Seq<nat>, x: int)
    requires
        forest_ok(parent, depth),
        0 <= x < parent.len(),
    ensures
        0 <= root_of(parent, depth, x) < parent.len(),
        parent[root_of(parent, depth, x)] == root_of(parent, depth, x),
        depth[root_of(parent, depth, x)] <= depth[x],
        parent[x] != x ==> depth[root_of(parent, depth, x)] < depth[x],
        root_of(parent, depth, x) == root_of(parent, depth, parent[x] as int),
    decreases depth[x],
{
    if parent[x] != x {
        lemma_root(parent, depth, parent[x] as int);
    }
}

/// Representatives do not depend on the bounds that witness the forest.
pub proof fn lemma_root_any_depth(parent: Seq<usize>, d1: Seq<nat>, d2: Seq<nat>, x: int)
    requires
        forest_ok(parent, d1),
        forest_ok(parent, d2),
        0 <= x < parent.len(),
    ensures
        root_of(parent, d1, x) == root_of(parent, d2, x),
    decreases d1[x],
{
    if parent[x] != x {
        lemma_root_any_depth(parent, d1, d2, parent[x] as int);
    }
}

/// Pointing an element straight at its representative changes no
/// representative.
pub proof fn lemma_compress(parent: Seq<usize>, depth: Seq<nat>, x: int, y: int)
    requires
        forest_ok(parent, depth),
        0 <= x < parent.len(),
        0 <= y < parent.len(),
    ensures
        forest_ok(parent.update(x, root_of(parent, depth, x) as usize), depth),
        root_of(parent.update(x, root_of(parent, depth, x) as usize), depth, y) == root_of(
            parent,
            depth,
            y,
        ),
    decreases depth[y],
{
    let r = root_of(parent, depth, x);
    let moved = parent.update(x, r as usize);
    lemma_root(parent, depth, x);
    assert(forest_ok(moved, depth)) by {
        assert forall|i: int| 0 <= i < moved.len() implies (#[trigger] moved[i]) < moved.len() && (moved[i]
            != i ==> depth[moved[i] as int] < depth[i]) by {
            if i != x {
                assert(moved[i] == parent[i]);
            }
        }
    }
    if y == x {
        if r != x {
            lemma_root(parent, depth, r);
            assert(moved[r] == parent[r]);
            assert(root_of(moved, depth, r) == r);
        }
    } else if parent[y] != y {
        lemma_compress(parent, depth, x, parent[y] as int);
        lemma_root(parent, depth, y);
        assert(moved[y] == parent[y]);
    }
}

/// Hanging the representative `a` below the representative `b` moves the
/// set of `a` into the set of `b` and leaves every other set as it is.
pub proof fn lemma_link(parent: Seq<usize>, depth: Seq<nat>, a: int, b: int, y: int)
    requires
        forest_ok(parent, depth),
        0 <= a < parent.len(),
        0 <= b < parent.len(),
        parent[a] == a,
        parent[b] == b,
        a != b,
        0 <= y < parent.len(),
    ensures
        forest_ok(parent.update(a, b as usize), lifted(parent, depth, a, b)),
        root_of(parent.update(a, b as usize), lifted(parent, depth, a, b), y) == (if root_of(
            parent,
            depth,
            y,
        ) == a {
            b
        } else {
            root_of(parent, depth, y)
        }),
    decreases depth[y],
{
    let moved = parent.update(a, b as usize);
    let d2 = lifted(parent, depth, a, b);
    assert(forest_ok(moved, d2)) by {
        assert forall|i: int| 0 <= i < moved.len() implies (#[trigger] moved[i]) < moved.len() && (moved[i]
            != i ==> d2[moved[i] as int] < d2[i]) by {
            lemma_root(parent, depth, i);
            if i == a {
                assert(root_of(parent, depth, b) == b);
            } else {
                assert(moved[i] == parent[i]);
                if parent[i] != i {
                    lemma_root(parent, depth, parent[i] as int);
                }
            }
        }
    }
    lemma_root(parent, depth, y);
    if y == a {
        assert(root_of(parent, depth, b) == b);
        assert(moved[b] == b);
        assert(root_of(moved, d2, b) == b);
    } else if parent[y] != y {
        lemma_link(parent, depth, a, b, parent[y] as int);
        assert(moved[y] == parent[y]);
    } else {
        assert(moved[y] == y);
    }
}

/// Bounds for the forest in which `a` hangs below `b`: every element of
/// the set of `a` lies deeper than `b` by what it lay deep before and one.
pub open spec fn lifted(parent: Seq<usize>, depth: Seq<nat>, a: int, b: int) -> Seq<nat> {
    Seq::new(
        depth.len(),
        |i: int|
            if root_of(parent, depth, i) == a {
                depth[i] + depth[b] + 1
            } else {
                depth[i]
            },
    )
}

/// Whether `a` and `b` belong to one set once the sets of `x` and `y` are
/// merged: they did before, or the one belonged to the set of `x` and the
/// other to that of `y`.
pub open spec fn merged(ds: DisjointSet, x: int, y: int, a: int, b: int) -> bool {
    ||| ds.same_set(a, b)
    ||| (ds.same_set(a, x) && ds.same_set(b, y))
    ||| (ds.same_set(a, y) && ds.same_set(b, x))
}

impl DisjointSet {
    /// The tables have one entry for every element, the parents form a
    /// forest, and the ranks are within bounds.
    pub open spec fn wf(&self) -> bool {
        &&& self.parent.len() == self.size
        &&& self.rank.len() == self.size
        &&& forest_ok(self.parent@, self.depth@)
        &&& self.ranks_ok()
    }

    /// The rank of every representative is less than what its set claims,
    /// and all sets together claim no more than there are elements. So no
    /// rank comes near what a machine word holds.
    pub open spec fn ranks_ok(&self) -> bool {
        &&& self.weight@.len() == self.parent.len()
        &&& claimed(self.parent@, self.weight@, self.parent.len() as int) <= self.parent.len()
        &&& forall|r: int|
            0 <= r < self.parent.len() && self.parent[r] == r ==> (#[trigger] self.rank[r])
                < self.weight@[r]
    }

    /// The representative of the set that `x` belongs to.
    pub open spec fn root(&self, x: int) -> int {
        root_of(self.parent@, self.depth@, x)
    }

    /// Whether `x` and `y` belong to one set.
    pub open spec fn same_set(&self, x: int, y: int) -> bool {
        self.root(x) == self.root(y)
    }

    /// The partition of `0..size` in which every element is alone.
    pub fn make_singletons(size: usize) -> (ds: DisjointSet)
        ensures
            ds.wf(),
            ds.size == size,
            forall|x: int| 0 <= x < size ==> #[trigger] ds.root(x) == x,
            forall|x: int| 0 <= x < size ==> #[trigger] ds.parent[x] == x,
            forall|x: int| 0 <= x < size ==> #[trigger] ds.rank[x] == 0,
    {
        let mut parent: Vec<usize> = Vec::new();
        let mut rank: Vec<usize> = Vec::new();
        let mut i: usize = 0;
        while i < size
            invariant
                i <= size,
                parent.len() == i,
                rank.len() == i,
                forall|j: int| 0 <= j < i ==> parent[j] == j,
                forall|j: int| 0 <= j < i ==> rank[j] == 0,
            decreases size - i,
        {
            parent.push(i);
            rank.push(0);
            i += 1;
        }
        let ghost depth = Seq::new(size as nat, |j: int| 0nat);
        let ghost weight = Seq::new(size as nat, |j: int| 1nat);
        proof {
            lemma_claim_alone(parent@, weight, size as int);
        }
        DisjointSet { size, parent, rank, depth: Ghost(depth), weight: Ghost(weight) }
    }

    /// The representative of the set of `x`. On the way every element
    /// passed is pointed straight at the representative; no set changes.
    pub fn find(&mut self, x: usize) -> (r: usize)
        requires
            old(self).wf(),
            x < old(self).size,
        ensures
            final(self).wf(),
            final(self).size == old(self).size,
            final(self).rank == old(self).rank,
            r == old(self).root(x as int),
            r < final(self).size,
            final(self).parent[r as int] == r,
            final(self).parent[x as int] == r,
            forall|y: int|
                0 <= y < old(self).size ==> #[trigger] final(self).root(y) == old(self).root(y),
            forall|y: int|
                0 <= y < old(self).size ==> #[trigger] final(self).parent[y] == old(self).parent[y]
                    || final(self).parent[y] == old(self).root(y),
        decreases old(self).depth@[x as int],
    {
        let parent = self.parent[x];
        proof {
            lemma_root(self.parent@, self.depth@, x as int);
        }
        if parent != x {
            let ghost before = *self;
            let r = self.find(parent);
            let ghost mid = *self;
            self.parent.set(x, r);
            proof {
                assert(mid.root(x as int) == before.root(x as int));
                assert(r == mid.root(x as int));
                assert forall|y: int| 0 <= y < self.size implies #[trigger] self.root(y)
                    == old(self).root(y) by {
                    lemma_compress(mid.parent@, mid.depth@, x as int, y);
                    assert(mid.root(y) == before.root(y));
                }
                lemma_compress(mid.parent@, mid.depth@, x as int, x as int);
                lemma_root(mid.parent@, mid.depth@, x as int);
                lemma_claim_same(mid.parent@, self.parent@, mid.weight@, self.size as int);
            }
            r
        } else {
            x
        }
    }

    /// The representative that the sets of `x` and `y` have once they are
    /// merged: of the two, the one of higher rank; that of `x` if the ranks
    /// are equal.
    pub open spec fn kept_root(&self, x: int, y: int) -> int {
        if self.rank[self.root(x)] < self.rank[self.root(y)] {
            self.root(y)
        } else {
            self.root(x)
        }
    }

    /// The representative that gives way once the sets of `x` and `y` are
    /// merged: of the two, the one that is not kept.
    pub open spec fn dropped_root(&self, x: int, y: int) -> int {
        if self.rank[self.root(x)] < self.rank[self.root(y)] {
            self.root(x)
        } else {
            self.root(y)
        }
    }

    /// The ranks once the sets of `x` and `y` are merged: where two sets
    /// of equal rank are merged, the rank of the representative of `x` is
    /// raised by one; else the ranks stay as they are.
    pub open spec fn ranks_after(&self, x: int, y: int) -> Seq<usize> {
        let rx = self.root(x);
        let ry = self.root(y);
        if rx != ry && self.rank[rx] == self.rank[ry] {
            self.rank@.update(rx, (self.rank[rx] + 1) as usize)
        } else {
            self.rank@
        }
    }

    /// Merges the sets of `x` and `y`. The representative of higher rank
    /// becomes that of both, on equal ranks that of `x`, whose rank is then
    /// raised by one; the other representative is hung below it. Every other
    /// set stays as it is.
    pub fn unite(&mut self, x: usize, y: usize)
        requires
            old(self).wf(),
            x < old(self).size,
            y < old(self).size,
        ensures
            final(self).wf(),
            final(self).size == old(self).size,
            final(self).same_set(x as int, y as int),
            forall|a: int, b: int|
                0 <= a < old(self).size && 0 <= b < old(self).size ==> (
                #[trigger] final(self).same_set(a, b) <==> merged(*old(self), x as int, y as int, a, b)),
            forall|a: int|
                0 <= a < old(self).size ==> #[trigger] final(self).root(a) == (if old(self).root(a)
                    == old(self).root(x as int) || old(self).root(a) == old(self).root(y as int) {
                    old(self).kept_root(x as int, y as int)
                } else {
                    old(self).root(a)
                }),
            final(self).rank@ == old(self).ranks_after(x as int, y as int),
            final(self).parent[old(self).dropped_root(x as int, y as int)] == old(self).kept_root(
                x as int,
                y as int,
            ),
            forall|a: int|
                0 <= a < old(self).size && a != old(self).dropped_root(x as int, y as int) ==> (
                #[trigger] final(self).parent[a]) == old(self).parent[a] || final(self).parent[a]
                    == old(self).root(a),
    {
        let x_root = self.find(x);
        let ghost first = *self;
        let y_root = self.find(y);
        proof {
            assert forall|a: int| 0 <= a < old(self).size implies (#[trigger] self.parent[a]) == old(
                self,
            ).parent[a] || self.parent[a] == old(self).root(a) by {
                assert(first.parent[a] == old(self).parent[a] || first.parent[a] == old(self).root(a));
                assert(first.root(a) == old(self).root(a));
            }
            assert(first.root(x_root as int) == x_root);
            assert(self.root(x_root as int) == x_root);
            lemma_root(self.parent@, self.depth@, x_root as int);
            assert(self.root(x as int) == x_root);
            assert(self.root(y as int) == y_root);
        }
        if x_root != y_root {
            let ghost mid = *self;
            let (child, top) = if self.rank[x_root] < self.rank[y_root] {
                (x_root, y_root)
            } else {
                (y_root, x_root)
            };
            proof {
                lemma_claim_within(mid.parent@, mid.weight@, mid.size as int, x_root as int);
                lemma_claim_within(mid.parent@, mid.weight@, mid.size as int, y_root as int);
                lemma_claim_link(
                    mid.parent@,
                    mid.weight@,
                    child as int,
                    top as int,
                    mid.size as int,
                );
            }
            if self.rank[x_root] == self.rank[y_root] {
                let grown = self.rank[x_root] + 1;
                self.rank.set(x_root, grown);
            }
            self.parent.set(child, top);
            proof {
                self.weight@ = mid.weight@.update(
                    top as int,
                    mid.weight@[top as int] + mid.weight@[child as int],
                );
                self.depth@ = lifted(mid.parent@, mid.depth@, child as int, top as int);
                assert forall|a: int| 0 <= a < self.size implies #[trigger] self.root(a) == (if mid.root(
                    a,
                ) == child {
                    top as int
                } else {
                    mid.root(a)
                }) by {
                    lemma_link(mid.parent@, mid.depth@, child as int, top as int, a);
                }
                lemma_link(mid.parent@, mid.depth@, child as int, top as int, 0);
                assert forall|a: int, b: int|
                    0 <= a < old(self).size && 0 <= b < old(self).size implies (
                #[trigger] self.same_set(a, b) <==> merged(*old(self), x as int, y as int, a, b)) by {
                    assert(self.root(a) == (if mid.root(a) == child { top as int } else { mid.root(a) }));
                    assert(self.root(b) == (if mid.root(b) == child { top as int } else { mid.root(b) }));
                    assert(mid.root(a) == old(self).root(a));
                    assert(mid.root(b) == old(self).root(b));
                    assert(mid.root(x as int) == old(self).root(x as int));
                    assert(mid.root(y as int) == old(self).root(y as int));
                }
                assert(self.root(x as int) == self.root(y as int));
                assert forall|a: int| 0 <= a < old(self).size implies #[trigger] self.root(a) == (
                if old(self).root(a) == old(self).root(x as int) || old(self).root(a) == old(
                    self,
                ).root(y as int) {
                    old(self).kept_root(x as int, y as int)
                } else {
                    old(self).root(a)
                }) by {
                    assert(self.root(a) == (if mid.root(a) == child { top as int } else { mid.root(a) }));
                    assert(mid.root(a) == old(self).root(a));
                    assert(mid.root(x as int) == old(self).root(x as int));
                    assert(mid.root(y as int) == old(self).root(y as int));
                }
            }
        }
    }
}

} // verus!
