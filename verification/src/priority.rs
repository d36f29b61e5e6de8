//! Entries of the planner's queues, each with the order it is served in.

use vstd::prelude::*;
use crate::data::Point;

verus! {

/// A cell waiting in a queue that serves the least weight first.
#[derive(Debug, Clone, Copy, PartialEq, Eq, Structural)]
pub struct CellPriority {
    pub pos: Point,
    pub w: i64,
}

impl CellPriority {
    /// Whether `self` is served before `other`: the lesser weight goes first.
    pub open spec fn goes_before(self, other: CellPriority) -> bool {
        self.w < other.w
    }

    /// Whether `self` is served before `other`.
    pub fn is_before(&self, other: &CellPriority) -> (r: bool)
        ensures
            r == self.goes_before(*other),
    {
        self.w < other.w
    }
}

/// A cell waiting in a queue that serves the greatest weight first.
#[derive(Debug, Clone, Copy, PartialEq, Eq, Structural)]
pub struct CellPriorityMax {
    pub pos: Point,
    pub w: i64,
}

impl CellPriorityMax {
    /// Whether `self` is served before `other`: the greater weight goes first.
    pub open spec fn goes_before(self, other: CellPriorityMax) -> bool {
        self.w > other.w
    }

    /// Whether `self` is served before `other`.
    pub fn is_before(&self, other: &CellPriorityMax) -> (r: bool)
        ensures
            r == self.goes_before(*other),
    {
        self.w > other.w
    }
}

/// A ship waiting for its turn to pick a move; the least weight goes first.
#[derive(Debug, Clone, Copy, PartialEq, Eq, Structural)]
pub struct ShipPriority {
    pub id: usize,
    pub w: i64,
}

impl ShipPriority {
    /// Whether `self` is served before `other`: the lesser weight goes first.
    pub open spec fn goes_before(self, other: ShipPriority) -> bool {
        self.w < other.w
    }

    /// Whether `self` is served before `other`.
    pub fn is_before(&self, other: &ShipPriority) -> (r: bool)
        ensures
            r == self.goes_before(*other),
    {
        self.w < other.w
    }
}

/// Takes an entry of least weight out of the queue. Of several with the
/// least weight the first in the queue is taken; the last entry of the queue
/// moves to its place.
pub fn pop_least(frontier: &mut Vec<CellPriority>) -> (least: CellPriority)
    requires
        old(frontier).len() > 0,
    ensures
        old(frontier)@.contains(least),
        forall|i: int| 0 <= i < old(frontier).len() ==> least.w <= (#[trigger] old(frontier)[i]).w,
        exists|i: int|
            {
                &&& 0 <= i < old(frontier).len()
                &&& #[trigger] old(frontier)[i] == least
                &&& forall|j: int| 0 <= j < i ==> least.w < (#[trigger] old(frontier)[j]).w
                &&& final(frontier)@ == old(frontier)@.update(i, old(frontier)@.last()).drop_last()
            },
        final(frontier).len() == old(frontier).len() - 1,
        forall|e: CellPriority|
            old(frontier)@.contains(e) && e != least ==> #[trigger] final(frontier)@.contains(e),
        forall|e: CellPriority| #[trigger]
            final(frontier)@.contains(e) ==> old(frontier)@.contains(e),
{
    let mut best: usize = 0;
    let mut i: usize = 1;
    while i < frontier.len()
        invariant
            frontier.len() > 0,
            best < frontier.len(),
            1 <= i <= frontier.len(),
            best < i,
            forall|j: int| 0 <= j < i ==> frontier[best as int].w <= (#[trigger] frontier[j]).w,
            forall|j: int| 0 <= j < best ==> frontier[best as int].w < (#[trigger] frontier[j]).w,
        decreases frontier.len() - i,
    {
        if frontier[i].is_before(&frontier[best]) {
            best = i;
        }
        i += 1;
    }
    let ghost before = frontier@;
    let least = frontier.swap_remove(best);
    proof {
        assert(before[best as int] == least);
        assert forall|e: CellPriority| before.contains(e) && e != least implies #[trigger] frontier@.contains(
            e,
        ) by {
            let j = choose|j: int| 0 <= j < before.len() && before[j] == e;
            if j == before.len() - 1 {
                assert(frontier@[best as int] == e);
            } else {
                assert(frontier@[j] == e);
            }
        }
        assert forall|e: CellPriority| #[trigger] frontier@.contains(e) implies before.contains(
            e,
        ) by {
            let j = choose|j: int| 0 <= j < frontier@.len() && frontier@[j] == e;
            if j == best {
                assert(before[before.len() - 1] == e);
            } else {
                assert(before[j] == e);
            }
        }
    }
    least
}

} // verus!
