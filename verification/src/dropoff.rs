//! Where new deposit sites would pay, and which ship is to build one.

use vstd::prelude::*;
use crate::bot_logic::DropoffCandidate;
use crate::data::Point;
use crate::game::{Game, MAX_CELL};
use crate::lists::lemma_filter_push;

verus! {

/// Number of cells over which the neighbourhood of a site is averaged:
/// the cells of a diamond of radius five.
pub const NEARBY_CELLS: u64 = 61;

impl Game {
    /// What the listed cells hold together; a cell listed twice counts twice.
    pub open spec fn halite_sum(&self, cells: Seq<Point>) -> int
        decreases cells.len(),
    {
        if cells.len() == 0 {
            0
        } else {
            self.halite_sum(cells.drop_last()) + self.halite(cells.last())
        }
    }

    /// What the cells up to five steps from `center` hold together.
    pub open spec fn nearby_halite(&self, center: Point) -> int {
        self.halite_sum(self.rings(center, 0, 6))
    }

    /// A ring of radius `d` has at most `4 * d + 1` cells.
    pub proof fn lemma_ring_len(&self, c: Point, d: int)
        requires
            self.dims_ok(),
            0 <= d,
        ensures
            self.ring_at(c, d).len() <= 4 * d + 1,
    {
    }

    /// The rings of the radii `lo..hi` have at most `4 * hi + 1` cells each.
    pub proof fn lemma_rings_len(&self, c: Point, lo: int, hi: int)
        requires
            self.dims_ok(),
            0 <= lo <= hi,
        ensures
            self.rings(c, lo, hi).len() <= (hi - lo) * (4 * hi + 1),
        decreases hi - lo,
    {
        if hi > lo {
            self.lemma_rings_len(c, lo, hi - 1);
            self.lemma_ring_len(c, hi - 1);
            assert((hi - 1 - lo) * (4 * (hi - 1) + 1) + 4 * (hi - 1) + 1 <= (hi - lo) * (4 * hi
                + 1)) by (nonlinear_arith)
                requires
                    0 <= lo < hi,
            ;
        }
    }

    /// What the cells up to five steps from `center` hold together.
    pub fn nearby(&self, center: Point) -> (r: u64)
        requires
            crate::geometry::square_even(self.w(), self.h()),
            self.map_ok(),
            self.contains(center),
        ensures
            r == self.nearby_halite(center),
            r <= 150 * MAX_CELL,
    {
        let cells = self.tiles_within_dist(center, 5);
        proof {
            self.lemma_rings_len(center, 0, 6);
            self.lemma_rings_in_grid(center, 0, 6);
        }
        let mut sum: u64 = 0;
        let mut i: usize = 0;
        assert(cells@.subrange(0, 0) =~= Seq::<Point>::empty());
        while i < cells.len()
            invariant
                self.map_ok(),
                cells@ == self.rings(center, 0, 6),
                cells.len() <= 150,
                forall|j: int| 0 <= j < cells.len() ==> self.contains(#[trigger] cells[j]),
                i <= cells.len(),
                sum == self.halite_sum(cells@.subrange(0, i as int)),
                sum <= i * MAX_CELL,
            decreases cells.len() - i,
        {
            assert(self.contains(cells[i as int]));
            assert(cells@.subrange(0, i as int + 1).drop_last() =~= cells@.subrange(0, i as int));
            sum = sum + (self.halite_at(cells[i]) as u64);
            i += 1;
        }
        assert(cells@.subrange(0, cells.len() as int) =~= cells@);
        sum
    }

    /// A candidate site stays on the list while its neighbourhood holds
    /// more than 150 a cell on average and it lies far enough from the
    /// existing sites.
    pub open spec fn keeps(&self, spacing: int, dc: DropoffCandidate) -> bool {
        self.nearby_halite(dc.center) > 150 * NEARBY_CELLS && self.nearest_drop_pt_dist.at_pos(
            dc.center,
        ) >= spacing
    }

    /// The `i`-th own ship may build a site at the `j`-th candidate: it
    /// lies far enough from the existing sites, not on a site of another
    /// player, and near enough to the candidate's centre.
    pub open spec fn may_build(
        &self,
        cands: Seq<DropoffCandidate>,
        spacing: int,
        i: int,
        j: int,
    ) -> bool {
        let ship = self.ships@[self.my_ships()[i]];
        &&& 0 <= i < self.my_ships().len()
        &&& 0 <= j < cands.len()
        &&& self.nearest_drop_pt_dist.at_pos(ship.pos) >= spacing
        &&& self.enemy_drop_pts.at_pos(ship.pos).is_none()
        &&& self.distance(ship.pos, cands[j].center) <= cands[j].dist
    }

    /// What building at the `j`-th candidate by the `i`-th ship scores:
    /// the average of the candidate's neighbourhood and three for every step
    /// that the ship lies from the existing sites, here times the number of
    /// cells averaged over.
    pub open spec fn build_score(&self, cands: Seq<DropoffCandidate>, i: int, j: int) -> int {
        let ship = self.ships@[self.my_ships()[i]];
        self.nearby_halite(cands[j].center) + 3 * NEARBY_CELLS * self.nearest_drop_pt_dist.at_pos(
            ship.pos,
        )
    }

    /// The pair `(i, j)` scores highest of all ships and candidates that
    /// may build, and is the first pair to do so when the ships are gone
    /// through in the order of the roster and for each the candidates in the
    /// order of the list.
    pub open spec fn best_build(
        &self,
        cands: Seq<DropoffCandidate>,
        spacing: int,
        i: int,
        j: int,
    ) -> bool {
        &&& self.may_build(cands, spacing, i, j)
        &&& forall|i2: int, j2: int| #[trigger]
            self.may_build(cands, spacing, i2, j2) ==> self.build_score(cands, i2, j2)
                <= self.build_score(cands, i, j) && ((i2 < i || (i2 == i && j2 < j))
                ==> self.build_score(cands, i2, j2) < self.build_score(cands, i, j))
    }
}

/// The candidate sites that stay on the list this turn, in their order.
pub fn prune_candidates(game: &Game, cands: &Vec<DropoffCandidate>, spacing: usize) -> (kept: Vec<
    DropoffCandidate,
>)
    requires
        game.wf(),
        forall|i: int| 0 <= i < cands.len() ==> game.contains((#[trigger] cands[i]).center),
    ensures
        kept@ == cands@.filter(|dc: DropoffCandidate| game.keeps(spacing as int, dc)),
        forall|i: int| 0 <= i < kept.len() ==> game.contains((#[trigger] kept[i]).center),
{
    let ghost keep = |dc: DropoffCandidate| game.keeps(spacing as int, dc);
    let mut kept: Vec<DropoffCandidate> = Vec::new();
    let mut i: usize = 0;
    assert(cands@.subrange(0, 0) =~= Seq::<DropoffCandidate>::empty());
    while i < cands.len()
        invariant
            game.wf(),
            forall|j: int| 0 <= j < cands.len() ==> game.contains((#[trigger] cands[j]).center),
            keep == |dc: DropoffCandidate| game.keeps(spacing as int, dc),
            i <= cands.len(),
            kept@ == cands@.subrange(0, i as int).filter(keep),
            forall|j: int| 0 <= j < kept.len() ==> game.contains((#[trigger] kept[j]).center),
        decreases cands.len() - i,
    {
        let dc = cands[i];
        assert(game.contains(cands[i as int].center));
        let nearby_halite = game.nearby(dc.center);
        proof {
            assert(cands@.subrange(0, i as int + 1) =~= cands@.subrange(0, i as int).push(dc));
            lemma_filter_push(cands@.subrange(0, i as int), keep, dc);
        }
        if nearby_halite > 150 * NEARBY_CELLS && *game.nearest_drop_pt_dist.get(dc.center)
            >= spacing {
            kept.push(dc);
        }
        i += 1;
    }
    assert(cands@.subrange(0, cands.len() as int) =~= cands@);
    kept
}

/// The ship that is to build a deposit site: the ship of the pair of
/// ship and candidate that scores highest among those that may build; none
/// if no ship may build anywhere.
#[verifier::spinoff_prover]
pub fn choose_dropoff_ship(game: &Game, cands: &Vec<DropoffCandidate>, spacing: usize) -> (r: Option<
    usize,
>)
    requires
        game.wf(),
        forall|i: int| 0 <= i < cands.len() ==> game.contains((#[trigger] cands[i]).center),
    ensures
        match r {
            Some(id) => exists|i: int, j: int| #[trigger]
                game.best_build(cands@, spacing as int, i, j) && game.my_ships()[i] == id,
            None => forall|i: int, j: int| !#[trigger] game.may_build(cands@, spacing as int, i, j),
        },
{
    let ids = &game.ship_id_by_player[game.my_pid];
    let mut best: Option<usize> = None;
    let mut best_score: u64 = 0;
    let ghost mut bi: int = 0;
    let ghost mut bj: int = 0;
    let mut i: usize = 0;
    while i < ids.len()
        invariant
            game.wf(),
            ids@ == game.my_ships(),
            forall|j: int| 0 <= j < cands.len() ==> game.contains((#[trigger] cands[j]).center),
            i <= ids.len(),
            match best {
                Some(id) => game.may_build(cands@, spacing as int, bi, bj) && bi < i && ids[bi]
                    == id && best_score == game.build_score(cands@, bi, bj),
                None => true,
            },
            forall|i2: int, j2: int|
                i2 < i && #[trigger] game.may_build(cands@, spacing as int, i2, j2) ==> best.is_some()
                    && game.build_score(cands@, i2, j2) <= best_score && ((i2 < bi || (i2 == bi
                    && j2 < bj)) ==> game.build_score(cands@, i2, j2) < best_score),
        decreases ids.len() - i,
    {
        let id = ids[i];
        assert(game.ships@.contains_key(game.roster(game.my_pid as int)[i as int]));
        let ship = game.ship(id);
        assert(game.ship_ok(id, game.ships@[id]));
        let far = *game.nearest_drop_pt_dist.get(ship.pos);
        proof {
            crate::vmaps::lemma_distance_bound(
                game.w(),
                game.h(),
                ship.pos,
                game.my_drop_pts@[game.nearest_drop_pt_idx.at_pos(ship.pos) as int],
            );
            assert(crate::vmaps::first_nearest(
                game.w(),
                game.h(),
                game.my_drop_pts@,
                ship.pos,
                game.nearest_drop_pt_idx.at_pos(ship.pos) as int,
            ));
        }
        if far >= spacing && game.enemy_drop_pts.get(ship.pos).is_none() {
            let mut j: usize = 0;
            while j < cands.len()
                invariant
                    game.wf(),
                    ids@ == game.my_ships(),
                    forall|k: int|
                        0 <= k < cands.len() ==> game.contains((#[trigger] cands[k]).center),
                    i < ids.len(),
                    ids[i as int] == id,
                    ship == game.ships@[id],
                    game.contains(ship.pos),
                    far == game.nearest_drop_pt_dist.at_pos(ship.pos),
                    far <= 32768,
                    far >= spacing,
                    game.enemy_drop_pts.at_pos(ship.pos).is_none(),
                    j <= cands.len(),
                    match best {
                        Some(b) => game.may_build(cands@, spacing as int, bi, bj) && (bi < i || (bi
                            == i && bj < j)) && ids[bi] == b && best_score == game.build_score(
                            cands@,
                            bi,
                            bj,
                        ),
                        None => true,
                    },
                    forall|i2: int, j2: int|
                        (i2 < i || (i2 == i && j2 < j)) && #[trigger] game.may_build(
                            cands@,
                            spacing as int,
                            i2,
                            j2,
                        ) ==> best.is_some() && game.build_score(cands@, i2, j2) <= best_score && ((
                        i2 < bi || (i2 == bi && j2 < bj)) ==> game.build_score(cands@, i2, j2)
                            < best_score),
                decreases cands.len() - j,
            {
                let dc = cands[j];
                assert(game.contains(cands[j as int].center));
                if game.dist(ship.pos, dc.center) <= dc.dist {
                    let score: u64 = game.nearby(dc.center) + 3 * NEARBY_CELLS * (far as u64);
                    assert(game.may_build(cands@, spacing as int, i as int, j as int));
                    assert(score == game.build_score(cands@, i as int, j as int));
                    if best.is_none() || score > best_score {
                        best_score = score;
                        best = Some(id);
                        proof {
                            bi = i as int;
                            bj = j as int;
                        }
                    }
                }
                j += 1;
            }
        }
        i += 1;
    }
    proof {
        match best {
            Some(id) => {
                assert(game.best_build(cands@, spacing as int, bi, bj));
            },
            None => {},
        }
    }
    best
}

} // verus!
