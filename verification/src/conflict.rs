//! Keeping the fleet's ships from ending a turn on one cell.
//!
//! Ships take their moves one after the other. A ship reserves the best
//! cell that is still free; a ship that finds none is put back, and later
//! asks the holder of a cell it wants to step aside.

use vstd::prelude::*;
use crate::data::{Direction, Point};
use crate::geometry::in_grid;
use crate::gmap::GMap;
use crate::lists::{lemma_filter_push, lemma_filter_same};

verus! {

/// What is added to the cost of a move onto a reserved cell.
pub const BLOCKED: i64 = 100_000_000;

/// Largest magnitude of a cost that goes into the scores of a move.
pub const SCORE_CAP: i64 = 0x4_0000_0000_0000;

/// One of the five moves of a ship, before reservations are looked at.
#[derive(Debug, Clone, Copy, PartialEq, Eq, Structural)]
pub struct Candidate {
    /// The cell the move ends on.
    pub pos: Point,
    pub dir: Direction,
    /// Cost of the way from that cell to the ship's target.
    pub base: i64,
    /// What a hostile ship expected on that cell adds.
    pub threat: i64,
}

/// A ship that can move this turn, with its five moves in canonical order.
#[derive(Debug)]
pub struct Mover {
    pub id: usize,
    pub candidates: Vec<Candidate>,
}

/// One of the five moves of a ship with the score it had when the ship
/// took its turn. A cell reserved by another moving ship counts as free
/// here; a cell held by a ship that cannot move carries the penalty.
#[derive(Debug, Clone, Copy, PartialEq, Eq, Structural)]
pub struct MoveOption {
    pub pos: Point,
    pub dir: Direction,
    pub score: i64,
}

impl Mover {
    /// A mover has five moves, each onto a cell of the grid and with a score
    /// within the cap.
    pub open spec fn wf(&self, w: int, h: int) -> bool {
        &&& self.candidates.len() == 5
        &&& forall|m: int|
            0 <= m < 5 ==> {
                &&& in_grid(w, h, (#[trigger] self.candidates[m]).pos)
                &&& self.candidates[m].dir == Direction::all()[m]
                &&& -SCORE_CAP <= self.candidates[m].base <= SCORE_CAP
                &&& 0 <= self.candidates[m].threat <= SCORE_CAP
            }
    }

    /// The cell the ship is on: where standing still leaves it.
    pub open spec fn home(&self) -> Point {
        self.candidates[4].pos
    }
}

/// The cell that the `u`-th ship ends on when it moves in direction `d`.
pub open spec fn dest(movers: Seq<Mover>, u: int, d: Direction) -> Point {
    movers[u].candidates[d.index()].pos
}

/// The `v`-th ship is committed to a move that ends on `p`.
pub open spec fn holds(
    movers: Seq<Mover>,
    commands: Seq<Option<Direction>>,
    v: int,
    p: Point,
) -> bool {
    match commands[v] {
        Some(d) => dest(movers, v, d) == p,
        None => false,
    }
}

/// One of the first `n` ships is committed to a move that ends on `p`.
pub open spec fn taken_by(
    movers: Seq<Mover>,
    commands: Seq<Option<Direction>>,
    n: int,
    p: Point,
) -> bool {
    exists|v: int| 0 <= v < n && #[trigger] holds(movers, commands, v, p)
}

/// The reservations of one turn.
pub struct Board {
    /// Cells held by own ships that cannot move this turn.
    pub immovable: GMap<bool>,
    /// Cells on which own ships may meet: reservations pass them by.
    pub shared: GMap<bool>,
    /// Cells that no further ship may choose.
    pub forbidden: GMap<bool>,
    /// For a cell reserved by a moving ship, the place of that ship in the
    /// order of the movers.
    pub movable_next: GMap<Option<usize>>,
    /// The move each of the movers is committed to, if any.
    pub commands: Vec<Option<Direction>>,
}

impl Board {
    /// The tables of the board fit the grid.
    pub open spec fn wf(&self, w: int, h: int) -> bool {
        &&& self.immovable.wf(w, h)
        &&& self.shared.wf(w, h)
        &&& self.forbidden.wf(w, h)
        &&& self.movable_next.wf(w, h)
    }

    /// The reservations protect every committed move: the cell it ends on
    /// is reserved for that ship, unless ships may meet there; and no cell
    /// is reserved that a ship unable to move stands on.
    pub open spec fn safe(&self, w: int, h: int, movers: Seq<Mover>) -> bool {
        &&& self.commands.len() <= movers.len()
        &&& forall|u: int|
            0 <= u < self.commands.len() ==> match #[trigger] self.commands[u] {
                Some(d) => self.shared.at_pos(dest(movers, u, d)) || self.movable_next.at_pos(
                    dest(movers, u, d),
                ) == Some(u as usize),
                None => true,
            }
        &&& forall|p: Point|
            in_grid(w, h, p) ==> match #[trigger] self.movable_next.at_pos(p) {
                Some(u) => u < movers.len() && !self.immovable.at_pos(p) && !self.shared.at_pos(p),
                None => true,
            }
    }

    /// The forbidden cells are those held by ships that cannot move and
    /// those that one of the first `n` movers is committed to, in both cases
    /// but for the cells on which ships may meet. A reserved cell names the
    /// ship that is committed to it.
    pub open spec fn tracks(&self, w: int, h: int, movers: Seq<Mover>, n: int) -> bool {
        &&& forall|p: Point|
            in_grid(w, h, p) ==> #[trigger] self.forbidden.at_pos(p) == (!self.shared.at_pos(p) && (
            self.immovable.at_pos(p) || taken_by(movers, self.commands@, n, p)))
        &&& forall|p: Point|
            in_grid(w, h, p) ==> match #[trigger] self.movable_next.at_pos(p) {
                Some(u) => u < n && holds(movers, self.commands@, u as int, p),
                None => true,
            }
    }
}

/// Two committed ships end on one cell only where ships may meet, and a
/// committed ship ends on the cell of a ship that cannot move only there.
pub proof fn committed_moves_are_apart(w: int, h: int, movers: Seq<Mover>, board: Board, u: int, v: int)
    requires
        board.wf(w, h),
        board.safe(w, h, movers),
        forall|i: int| 0 <= i < movers.len() ==> (#[trigger] movers[i]).wf(w, h),
        0 <= u < board.commands.len(),
        0 <= v < board.commands.len(),
        board.commands[u].is_some(),
        board.commands[v].is_some(),
    ensures
        u != v && dest(movers, u, board.commands[u].unwrap()) == dest(
            movers,
            v,
            board.commands[v].unwrap(),
        ) ==> board.shared.at_pos(dest(movers, u, board.commands[u].unwrap())),
        board.immovable.at_pos(dest(movers, u, board.commands[u].unwrap()))
            ==> board.shared.at_pos(dest(movers, u, board.commands[u].unwrap())),
{
    let du = board.commands[u].unwrap();
    let pu = dest(movers, u, du);
    assert(movers[u].wf(w, h));
    assert(in_grid(w, h, movers[u].candidates[du.index()].pos));
    if !board.shared.at_pos(pu) {
        assert(board.movable_next.at_pos(pu) == Some(u as usize));
    }
}

/// Score with which a move onto a free cell competes.
pub open spec fn live_score(c: Candidate) -> int {
    c.base + c.threat
}

/// Score of a move as the ship would see it if no other moving ship were
/// in its way: a cell reserved by a moving ship counts without penalty and
/// without threat, a cell held by a ship that cannot move with the penalty.
pub open spec fn open_score(c: Candidate, blocked: bool, immovable: bool) -> int {
    if blocked {
        if immovable {
            c.base + BLOCKED
        } else {
            c.base as int
        }
    } else {
        c.base + c.threat
    }
}

/// The `m`-th move is the cheapest of the moves onto cells that are not
/// blocked, and the first of these in canonical order.
pub open spec fn first_choice(blocked: Seq<bool>, cands: Seq<Candidate>, m: int) -> bool {
    &&& 0 <= m < 5
    &&& !blocked[m]
    &&& forall|k: int|
        0 <= k < 5 && !blocked[k] ==> live_score(cands[m]) <= live_score(#[trigger] cands[k])
    &&& forall|k: int|
        0 <= k < m && !blocked[k] ==> live_score(cands[m]) < live_score(#[trigger] cands[k])
}

/// The `m`-th option has the least score, and is the first such.
pub open spec fn first_least(options: Seq<MoveOption>, m: int) -> bool {
    &&& 0 <= m < options.len()
    &&& forall|k: int| 0 <= k < options.len() ==> options[m].score <= (#[trigger] options[k]).score
    &&& forall|k: int| 0 <= k < m ==> options[m].score < (#[trigger] options[k]).score
}

/// What one ship's turn at reserving comes to.
pub struct Reserved {
    /// The ship's five moves with their open scores.
    pub options: Vec<MoveOption>,
    /// The move the ship would make if no other moving ship were in its way.
    pub wish: Direction,
    /// Whether all five cells were blocked, so that the ship is put back.
    pub deferred: bool,
}

/// Whether each of the five cells of a ship is blocked on a board.
pub open spec fn blocked_cells(forbidden: GMap<bool>, cands: Seq<Candidate>) -> Seq<bool> {
    Seq::new(5, |m: int| forbidden.at_pos(cands[m].pos))
}

/// The five options of a ship for a given state of the reservations.
pub open spec fn options_for(
    forbidden: GMap<bool>,
    immovable: GMap<bool>,
    cands: Seq<Candidate>,
) -> Seq<MoveOption> {
    Seq::new(
        5,
        |m: int|
            MoveOption {
                pos: cands[m].pos,
                dir: cands[m].dir,
                score: open_score(
                    cands[m],
                    forbidden.at_pos(cands[m].pos),
                    immovable.at_pos(cands[m].pos),
                ) as i64,
            },
    )
}

/// The command that a ship's turn at reserving ends with: none if all its
/// cells are blocked, else its first cheapest move onto a free cell.
pub open spec fn choice_ok(blocked: Seq<bool>, cands: Seq<Candidate>, c: Option<Direction>) -> bool {
    match c {
        None => forall|m: int| 0 <= m < 5 ==> #[trigger] blocked[m],
        Some(d) => first_choice(blocked, cands, d.index()),
    }
}

impl Board {
    /// Lets the next mover take its turn: it is committed to its cheapest
    /// move onto a cell that is not forbidden, and reserves that cell; with
    /// all five cells forbidden it is left without a command.
    #[verifier::spinoff_prover]
    pub fn reserve_one(&mut self, w: usize, h: usize, movers: &Vec<Mover>) -> (r: Reserved)
        requires
            old(self).wf(w as int, h as int),
            old(self).commands.len() < movers.len(),
            forall|i: int| 0 <= i < movers.len() ==> (#[trigger] movers[i]).wf(w as int, h as int),
            old(self).safe(w as int, h as int, movers@),
            old(self).tracks(w as int, h as int, movers@, old(self).commands.len() as int),
        ensures
            final(self).wf(w as int, h as int),
            final(self).safe(w as int, h as int, movers@),
            final(self).tracks(w as int, h as int, movers@, final(self).commands.len() as int),
            final(self).immovable == old(self).immovable,
            final(self).shared == old(self).shared,
            final(self).commands.len() == old(self).commands.len() + 1,
            final(self).commands@.subrange(0, old(self).commands.len() as int) == old(
                self,
            ).commands@,
            choice_ok(
                blocked_cells(old(self).forbidden, movers[old(self).commands.len() as int].candidates@),
                movers[old(self).commands.len() as int].candidates@,
                final(self).commands@.last(),
            ),
            r.deferred == final(self).commands@.last().is_none(),
            r.options@ == options_for(
                old(self).forbidden,
                old(self).immovable,
                movers[old(self).commands.len() as int].candidates@,
            ),
            first_least(r.options@, r.wish.index()),
    {
        let u = self.commands.len();
        let ghost cands = movers[u as int].candidates@;
        let ghost blocked = blocked_cells(self.forbidden, cands);
        let ghost target = options_for(self.forbidden, self.immovable, cands);
        assert(movers[u as int].wf(w as int, h as int));
        let mut options: Vec<MoveOption> = Vec::new();
        let mut best: usize = 5;
        let mut best_score: i64 = 0;
        let mut wish: usize = 0;
        let mut wish_score: i64 = 0;
        let mut m: usize = 0;
        while m < 5
            invariant
                self.wf(w as int, h as int),
                *self == *old(self),
                u == self.commands.len(),
                u < movers.len(),
                cands == movers[u as int].candidates@,
                movers[u as int].wf(w as int, h as int),
                blocked == blocked_cells(self.forbidden, cands),
                target == options_for(self.forbidden, self.immovable, cands),
                m <= 5,
                options.len() == m,
                forall|k: int| 0 <= k < m ==> options[k] == target[k],
                best <= 5,
                best < 5 ==> best < m && !blocked[best as int] && best_score == live_score(
                    cands[best as int],
                ),
                forall|k: int|
                    0 <= k < m && !blocked[k] ==> best < 5 && best_score <= live_score(
                        #[trigger] cands[k],
                    ),
                forall|k: int|
                    0 <= k < best && k < m && !blocked[k] ==> best_score < live_score(
                        #[trigger] cands[k],
                    ),
                best == 5 ==> forall|k: int| 0 <= k < m ==> #[trigger] blocked[k],
                m > 0 ==> wish < m && wish_score == options[wish as int].score,
                forall|k: int| 0 <= k < m ==> wish_score <= (#[trigger] options[k]).score,
                forall|k: int| 0 <= k < wish && k < m ==> wish_score < (#[trigger] options[k]).score,
            decreases 5 - m,
        {
            let c = movers[u].candidates[m];
            assert(c == cands[m as int]);
            let is_blocked = *self.forbidden.get(c.pos);
            let is_immovable = *self.immovable.get(c.pos);
            assert(is_blocked == blocked[m as int]);
            let score: i64 = if is_blocked { c.base + BLOCKED } else { c.base + c.threat };
            let o_score: i64 = if is_blocked && !is_immovable { c.base } else { score };
            options.push(MoveOption { pos: c.pos, dir: c.dir, score: o_score });
            assert(options[m as int] == target[m as int]);
            if !is_blocked && (best == 5 || score < best_score) {
                best = m;
                best_score = score;
            }
            if m == 0 || o_score < wish_score {
                wish = m;
                wish_score = o_score;
            }
            m += 1;
        }
        assert(options@ =~= target);
        let wish_dir = Direction::from_index(wish);
        if best == 5 {
            self.commands.push(None);
            proof {
                assert(self.commands@.subrange(0, u as int) =~= old(self).commands@);
                lemma_taken_extends(movers@, old(self).commands@, self.commands@, u as int);
                assert forall|p: Point| in_grid(w as int, h as int, p) implies !holds(
                    movers@,
                    self.commands@,
                    u as int,
                    p,
                ) by {}
                assert forall|p: Point| in_grid(w as int, h as int, p) implies taken_by(
                    movers@,
                    self.commands@,
                    u as int + 1,
                    p,
                ) == taken_by(movers@, old(self).commands@, u as int, p) by {
                    lemma_taken_step(movers@, self.commands@, u as int, p);
                }
            }
            return Reserved { options, wish: wish_dir, deferred: true };
        }
        let dir = Direction::from_index(best);
        let pos = movers[u].candidates[best].pos;
        assert(pos == dest(movers@, u as int, dir));
        assert(!self.forbidden.at_pos(pos));
        let open = *self.shared.get(pos);
        if !open {
            self.forbidden.set(pos, true);
            self.movable_next.set(pos, Some(u));
        }
        self.commands.push(Some(dir));
        proof {
            assert(self.commands@.subrange(0, u as int) =~= old(self).commands@);
            lemma_taken_extends(movers@, old(self).commands@, self.commands@, u as int);
            assert forall|p: Point| in_grid(w as int, h as int, p) implies taken_by(
                movers@,
                self.commands@,
                u as int + 1,
                p,
            ) == (p == pos || taken_by(movers@, old(self).commands@, u as int, p)) by {
                lemma_taken_step(movers@, self.commands@, u as int, p);
            }
            assert forall|p: Point| in_grid(w as int, h as int, p) implies #[trigger] self.forbidden.at_pos(
                p,
            ) == (!self.shared.at_pos(p) && (self.immovable.at_pos(p) || taken_by(
                movers@,
                self.commands@,
                u as int + 1,
                p,
            ))) by {
                assert(old(self).forbidden.has(p));
                assert(old(self).forbidden.at_pos(p) == (!old(self).shared.at_pos(p) && (old(
                    self,
                ).immovable.at_pos(p) || taken_by(movers@, old(self).commands@, u as int, p))));
            }
            assert forall|p: Point| in_grid(w as int, h as int, p) implies match #[trigger] self.movable_next.at_pos(
                p,
            ) {
                Some(v) => v < u + 1 && holds(movers@, self.commands@, v as int, p)
                    && v < movers.len() && !self.immovable.at_pos(p) && !self.shared.at_pos(p),
                None => true,
            } by {
                assert(old(self).movable_next.has(p));
                match old(self).movable_next.at_pos(p) {
                    Some(v) => {
                        assert(holds(movers@, old(self).commands@, v as int, p));
                        assert(self.commands@[v as int] == old(self).commands@[v as int]);
                    },
                    None => {},
                }
            }
            assert forall|v: int| 0 <= v < self.commands.len() implies match #[trigger] self.commands[v] {
                Some(d) => self.shared.at_pos(dest(movers@, v, d)) || self.movable_next.at_pos(
                    dest(movers@, v, d),
                ) == Some(v as usize),
                None => true,
            } by {
                if v < u {
                    assert(self.commands@[v] == old(self).commands@[v]);
                    match old(self).commands[v] {
                        Some(d) => {
                            let q = dest(movers@, v, d);
                            assert(movers[v].wf(w as int, h as int));
                            assert(in_grid(w as int, h as int, movers[v].candidates[d.index()].pos));
                            assert(old(self).movable_next.has(q));
                            if !old(self).shared.at_pos(q) {
                                assert(old(self).movable_next.at_pos(q) == Some(v as usize));
                                assert(old(self).forbidden.has(q));
                                assert(holds(movers@, old(self).commands@, v, q));
                                assert(taken_by(movers@, old(self).commands@, u as int, q));
                                assert(old(self).forbidden.at_pos(q));
                                assert(q != pos);
                            }
                        },
                        None => {},
                    }
                }
            }
        }
        Reserved { options, wish: wish_dir, deferred: false }
    }
}

/// Commands of ships that had their turn stay what they were when a later
/// ship is added.
pub proof fn lemma_taken_extends(
    movers: Seq<Mover>,
    before: Seq<Option<Direction>>,
    after: Seq<Option<Direction>>,
    n: int,
)
    requires
        n == before.len(),
        after.len() >= n,
        after.subrange(0, n) == before,
    ensures
        forall|v: int, p: Point|
            0 <= v < n ==> #[trigger] holds(movers, after, v, p) == holds(movers, before, v, p),
        forall|k: int, p: Point|
            0 <= k <= n ==> #[trigger] taken_by(movers, after, k, p) == taken_by(
                movers,
                before,
                k,
                p,
            ),
{
    assert forall|v: int, p: Point| 0 <= v < n implies #[trigger] holds(movers, after, v, p)
        == holds(movers, before, v, p) by {
        assert(after.subrange(0, n)[v] == after[v]);
    }
    assert forall|k: int, p: Point| 0 <= k <= n implies #[trigger] taken_by(movers, after, k, p)
        == taken_by(movers, before, k, p) by {
        if taken_by(movers, after, k, p) {
            let v = choose|v: int| 0 <= v < k && #[trigger] holds(movers, after, v, p);
            assert(holds(movers, before, v, p));
        }
        if taken_by(movers, before, k, p) {
            let v = choose|v: int| 0 <= v < k && #[trigger] holds(movers, before, v, p);
            assert(holds(movers, after, v, p));
        }
    }
}

/// A cell is taken by one of the first `n + 1` ships if the last of them
/// holds it or one of the first `n` does.
#[verifier::spinoff_prover]
pub proof fn lemma_taken_step(movers: Seq<Mover>, commands: Seq<Option<Direction>>, n: int, p: Point)
    requires
        0 <= n,
    ensures
        taken_by(movers, commands, n + 1, p) == (holds(movers, commands, n, p) || taken_by(
            movers,
            commands,
            n,
            p,
        )),
{
    if taken_by(movers, commands, n + 1, p) {
        let v = choose|v: int| 0 <= v < n + 1 && #[trigger] holds(movers, commands, v, p);
        if v < n {
            assert(taken_by(movers, commands, n, p));
        }
    }
    if holds(movers, commands, n, p) {
        assert(taken_by(movers, commands, n + 1, p));
    }
    if taken_by(movers, commands, n, p) {
        let v = choose|v: int| 0 <= v < n && #[trigger] holds(movers, commands, v, p);
        assert(taken_by(movers, commands, n + 1, p));
    }
}

/// Whether each of the five cells of the `u`-th ship was blocked when the
/// ship took its turn: held by a ship that cannot move, or taken by a ship
/// that moved before it, and not a cell on which ships may meet.
pub open spec fn blocked_at(movers: Seq<Mover>, board: Board, u: int) -> Seq<bool> {
    Seq::new(
        5,
        |m: int|
            {
                let p = movers[u].candidates[m].pos;
                !board.shared.at_pos(p) && (board.immovable.at_pos(p) || taken_by(
                    movers,
                    board.commands@,
                    u,
                    p,
                ))
            },
    )
}

/// The five options of the `u`-th ship as they stood at its turn.
pub open spec fn options_at(movers: Seq<Mover>, board: Board, u: int) -> Seq<MoveOption> {
    Seq::new(
        5,
        |m: int|
            MoveOption {
                pos: movers[u].candidates[m].pos,
                dir: movers[u].candidates[m].dir,
                score: open_score(
                    movers[u].candidates[m],
                    blocked_at(movers, board, u)[m],
                    board.immovable.at_pos(movers[u].candidates[m].pos),
                ) as i64,
            },
    )
}

/// What the first round of reservations leaves for the second.
pub struct FirstPass {
    /// For every mover, its five moves with their open scores.
    pub options: Vec<Vec<MoveOption>>,
    /// For every mover, the move it would make with no moving ship in its way.
    pub wishes: Vec<Direction>,
    /// The movers that found all their cells blocked, in the order of their turns.
    pub colliding: Vec<usize>,
}

impl FirstPass {
    /// Every mover has its five options, which name the cells and the
    /// directions of its candidates, and its wish is the first cheapest of them.
    pub open spec fn wf(&self, movers: Seq<Mover>) -> bool {
        &&& self.options.len() == movers.len()
        &&& self.wishes.len() == movers.len()
        &&& forall|u: int|
            0 <= u < movers.len() ==> {
                &&& (#[trigger] self.options[u]).len() == 5
                &&& first_least(self.options[u]@, self.wishes[u].index())
                &&& forall|m: int|
                    0 <= m < 5 ==> (#[trigger] self.options[u][m]).pos == movers[u].candidates[m].pos
                        && self.options[u][m].dir == movers[u].candidates[m].dir
                        && -SCORE_CAP <= self.options[u][m].score <= 2 * SCORE_CAP
            }
    }
}

/// The board `board` and the pass `pass` are what the first round makes
/// of the board `start`, which had no reservations: every mover in turn is
/// committed to its first cheapest move onto a cell that was not blocked at
/// its turn, or to none if all five were blocked; its options carry the
/// scores of its turn; and the movers left without a command are listed in
/// the order of their turns.
pub open spec fn first_round(
    w: int,
    h: int,
    movers: Seq<Mover>,
    start: Board,
    board: Board,
    pass: FirstPass,
) -> bool {
    &&& board.wf(w, h)
    &&& board.safe(w, h, movers)
    &&& board.tracks(w, h, movers, movers.len() as int)
    &&& board.immovable == start.immovable
    &&& board.shared == start.shared
    &&& board.commands.len() == movers.len()
    &&& pass.wf(movers)
    &&& forall|u: int|
        0 <= u < movers.len() ==> choice_ok(
            blocked_at(movers, board, u),
            movers[u].candidates@,
            #[trigger] board.commands[u],
        )
    &&& forall|u: int|
        0 <= u < movers.len() ==> (#[trigger] pass.options[u])@ == options_at(movers, board, u)
    &&& forall|i: int, j: int|
        0 <= i < j < pass.colliding.len() ==> pass.colliding[i] < pass.colliding[j]
    &&& forall|i: int|
        0 <= i < pass.colliding.len() ==> (#[trigger] pass.colliding[i]) < movers.len()
            && board.commands[pass.colliding[i] as int].is_none()
    &&& forall|u: int|
        0 <= u < movers.len() && (#[trigger] board.commands[u]).is_none()
            ==> pass.colliding@.contains(u as usize)
}

impl Board {
    /// The board has no reservations: no mover has had its turn, forbidden
    /// are the cells of the ships that cannot move, but for those on which
    /// ships may meet, and no cell is reserved.
    pub open spec fn fresh(&self, w: int, h: int) -> bool {
        &&& self.wf(w, h)
        &&& self.commands@ == Seq::<Option<Direction>>::empty()
        &&& forall|p: Point|
            in_grid(w, h, p) ==> #[trigger] self.forbidden.at_pos(p) == (self.immovable.at_pos(p)
                && !self.shared.at_pos(p))
        &&& forall|p: Point| in_grid(w, h, p) ==> (#[trigger] self.movable_next.at_pos(p)).is_none()
    }

    /// A board without reservations: forbidden are the cells of the ships
    /// that cannot move, but for those on which ships may meet.
    pub fn new(w: usize, h: usize, immovable: GMap<bool>, shared: GMap<bool>) -> (b: Board)
        requires
            immovable.wf(w as int, h as int),
            shared.wf(w as int, h as int),
            w <= 32768,
            h <= 32768,
        ensures
            b.fresh(w as int, h as int),
            b.wf(w as int, h as int),
            b.immovable == immovable,
            b.shared == shared,
            b.commands@ == Seq::<Option<Direction>>::empty(),
            forall|p: Point|
                in_grid(w as int, h as int, p) ==> #[trigger] b.forbidden.at_pos(p) == (
                immovable.at_pos(p) && !shared.at_pos(p)),
            forall|p: Point|
                in_grid(w as int, h as int, p) ==> (#[trigger] b.movable_next.at_pos(p)).is_none(),
    {
        let mut forbidden: GMap<bool> = GMap::filled(w, h, false);
        let movable_next: GMap<Option<usize>> = GMap::filled(w, h, None);
        proof {
            assert forall|p: Point| in_grid(w as int, h as int, p) implies !#[trigger] forbidden.at_pos(
                p,
            ) by {
                assert(!forbidden.at(p.x as int, p.y as int));
            }
        }
        let mut y: usize = 0;
        while y < h
            invariant
                immovable.wf(w as int, h as int),
                shared.wf(w as int, h as int),
                forbidden.wf(w as int, h as int),
                w <= 32768,
                h <= 32768,
                y <= h,
                forall|p: Point|
                    in_grid(w as int, h as int, p) ==> #[trigger] forbidden.at_pos(p) == (p.y < y
                        && immovable.at_pos(p) && !shared.at_pos(p)),
            decreases h - y,
        {
            let mut x: usize = 0;
            while x < w
                invariant
                    immovable.wf(w as int, h as int),
                    shared.wf(w as int, h as int),
                    forbidden.wf(w as int, h as int),
                    w <= 32768,
                    h <= 32768,
                    y < h,
                    x <= w,
                    forall|p: Point|
                        in_grid(w as int, h as int, p) ==> #[trigger] forbidden.at_pos(p) == ((p.y
                            < y || (p.y == y && p.x < x)) && immovable.at_pos(p)
                            && !shared.at_pos(p)),
                decreases w - x,
            {
                let p = Point { x: x as isize, y: y as isize };
                if *immovable.get(p) && !*shared.get(p) {
                    forbidden.set(p, true);
                }
                x += 1;
            }
            y += 1;
        }
        proof {
            assert forall|p: Point| in_grid(w as int, h as int, p) implies (
            #[trigger] movable_next.at_pos(p)).is_none() by {
                assert(movable_next.at(p.x as int, p.y as int).is_none());
            }
        }
        Board { immovable, shared, forbidden, movable_next, commands: Vec::new() }
    }

    /// The first round: every mover in turn is committed to its cheapest
    /// move onto a cell that no ship before it has taken and that no ship
    /// unable to move stands on, and reserves it. A mover that finds all
    /// five cells blocked is put back for the second round.
    #[verifier::spinoff_prover]
    pub fn reserve_moves(&mut self, w: usize, h: usize, movers: &Vec<Mover>) -> (r: FirstPass)
        requires
            old(self).wf(w as int, h as int),
            old(self).commands.len() == 0,
            forall|i: int| 0 <= i < movers.len() ==> (#[trigger] movers[i]).wf(w as int, h as int),
            forall|p: Point|
                in_grid(w as int, h as int, p) ==> #[trigger] old(self).forbidden.at_pos(p) == (old(
                    self,
                ).immovable.at_pos(p) && !old(self).shared.at_pos(p)),
            forall|p: Point|
                in_grid(w as int, h as int, p) ==> (#[trigger] old(self).movable_next.at_pos(
                    p,
                )).is_none(),
        ensures
            first_round(w as int, h as int, movers@, *old(self), *final(self), r),
            final(self).wf(w as int, h as int),
            final(self).safe(w as int, h as int, movers@),
            final(self).tracks(w as int, h as int, movers@, movers.len() as int),
            final(self).immovable == old(self).immovable,
            final(self).shared == old(self).shared,
            final(self).commands.len() == movers.len(),
            r.wf(movers@),
            forall|u: int|
                0 <= u < movers.len() ==> choice_ok(
                    blocked_at(movers@, *final(self), u),
                    movers[u].candidates@,
                    #[trigger] final(self).commands[u],
                ),
            forall|u: int|
                0 <= u < movers.len() ==> (#[trigger] r.options[u])@ == options_at(
                    movers@,
                    *final(self),
                    u,
                ),
            forall|i: int, j: int|
                0 <= i < j < r.colliding.len() ==> r.colliding[i] < r.colliding[j],
            forall|i: int|
                0 <= i < r.colliding.len() ==> (#[trigger] r.colliding[i]) < movers.len()
                    && final(self).commands[r.colliding[i] as int].is_none(),
            forall|u: int|
                0 <= u < movers.len() && (#[trigger] final(self).commands[u]).is_none()
                    ==> r.colliding@.contains(u as usize),
    {
        let n = movers.len();
        let mut options: Vec<Vec<MoveOption>> = Vec::new();
        let mut wishes: Vec<Direction> = Vec::new();
        let mut colliding: Vec<usize> = Vec::new();
        proof {
            assert forall|p: Point| in_grid(w as int, h as int, p) implies !taken_by(
                movers@,
                self.commands@,
                0,
                p,
            ) by {}
        }
        let mut u: usize = 0;
        while u < n
            invariant
                n == movers.len(),
                u <= n,
                self.wf(w as int, h as int),
                self.commands.len() == u,
                forall|i: int|
                    0 <= i < movers.len() ==> (#[trigger] movers[i]).wf(w as int, h as int),
                self.safe(w as int, h as int, movers@),
                self.tracks(w as int, h as int, movers@, u as int),
                self.immovable == old(self).immovable,
                self.shared == old(self).shared,
                options.len() == u,
                wishes.len() == u,
                forall|v: int|
                    0 <= v < u ==> {
                        &&& (#[trigger] options[v]).len() == 5
                        &&& first_least(options[v]@, wishes[v].index())
                    },
                forall|v: int|
                    0 <= v < u ==> choice_ok(
                        blocked_at(movers@, *self, v),
                        movers[v].candidates@,
                        #[trigger] self.commands[v],
                    ),
                forall|v: int|
                    0 <= v < u ==> (#[trigger] options[v])@ == options_at(movers@, *self, v),
                forall|i: int, j: int| 0 <= i < j < colliding.len() ==> colliding[i] < colliding[j],
                forall|i: int|
                    0 <= i < colliding.len() ==> (#[trigger] colliding[i]) < u
                        && self.commands[colliding[i] as int].is_none(),
                forall|v: int|
                    0 <= v < u && (#[trigger] self.commands[v]).is_none() ==> colliding@.contains(
                        v as usize,
                    ),
            decreases n - u,
        {
            let ghost before = *self;
            let r = self.reserve_one(w, h, movers);
            proof {
                lemma_taken_extends(movers@, before.commands@, self.commands@, u as int);
                assert(movers[u as int].wf(w as int, h as int));
                assert(blocked_cells(before.forbidden, movers[u as int].candidates@) =~= blocked_at(
                    movers@,
                    *self,
                    u as int,
                )) by {
                    assert forall|m: int| 0 <= m < 5 implies blocked_cells(
                        before.forbidden,
                        movers[u as int].candidates@,
                    )[m] == blocked_at(movers@, *self, u as int)[m] by {
                        let p = movers[u as int].candidates[m].pos;
                        assert(in_grid(w as int, h as int, p));
                        assert(before.forbidden.at_pos(p) == (!before.shared.at_pos(p) && (
                        before.immovable.at_pos(p) || taken_by(
                            movers@,
                            before.commands@,
                            u as int,
                            p,
                        ))));
                    }
                }
                assert(self.commands@.last() == self.commands[u as int]);
                assert(r.options@ =~= options_at(movers@, *self, u as int));
                assert forall|v: int| 0 <= v < u + 1 implies choice_ok(
                    blocked_at(movers@, *self, v),
                    movers[v].candidates@,
                    #[trigger] self.commands[v],
                ) by {
                    if v < u {
                        assert(self.commands@.subrange(0, u as int)[v] == self.commands@[v]);
                        assert(self.commands[v] == before.commands[v]);
                        assert(blocked_at(movers@, *self, v) =~= blocked_at(movers@, before, v));
                        assert(choice_ok(
                            blocked_at(movers@, before, v),
                            movers[v].candidates@,
                            before.commands[v],
                        ));
                    }
                }
                assert forall|v: int| 0 <= v < u implies options_at(movers@, *self, v)
                    == options_at(movers@, before, v) by {
                    assert(blocked_at(movers@, *self, v) =~= blocked_at(movers@, before, v));
                    assert(options_at(movers@, *self, v) =~= options_at(movers@, before, v));
                }
                assert forall|v: int| 0 <= v < u implies self.commands[v] == before.commands[v] by {
                    assert(self.commands@.subrange(0, u as int)[v] == self.commands@[v]);
                }
            }
            let ghost old_colliding = colliding@;
            if r.deferred {
                colliding.push(u);
                proof {
                    assert forall|v: int|
                        0 <= v < u + 1 && (#[trigger] self.commands[v]).is_none() implies colliding@.contains(
                        v as usize,
                    ) by {
                        if v < u {
                            assert(before.commands[v].is_none());
                            assert(old_colliding.contains(v as usize));
                            let i = choose|i: int|
                                0 <= i < old_colliding.len() && old_colliding[i] == v as usize;
                            assert(colliding@[i] == v as usize);
                        } else {
                            assert(colliding@[colliding.len() - 1] == u);
                        }
                    }
                }
            } else {
                proof {
                    assert forall|v: int|
                        0 <= v < u + 1 && (#[trigger] self.commands[v]).is_none() implies colliding@.contains(
                        v as usize,
                    ) by {
                        assert(before.commands[v].is_none());
                    }
                }
            }
            options.push(r.options);
            wishes.push(r.wish);
            u += 1;
        }
        let r = FirstPass { options, wishes, colliding };
        proof {
            assert forall|v: int| 0 <= v < movers.len() implies {
                &&& (#[trigger] r.options[v]).len() == 5
                &&& first_least(r.options[v]@, r.wishes[v].index())
                &&& forall|m: int|
                    0 <= m < 5 ==> (#[trigger] r.options[v][m]).pos == movers[v].candidates[m].pos
                        && r.options[v][m].dir == movers[v].candidates[m].dir && -SCORE_CAP
                        <= r.options[v][m].score <= 2 * SCORE_CAP
            } by {
                assert(r.options[v]@ == options_at(movers@, *self, v));
                assert(movers[v].wf(w as int, h as int));
                assert forall|m: int| 0 <= m < 5 implies (#[trigger] r.options[v][m]).pos
                    == movers[v].candidates[m].pos && r.options[v][m].dir
                    == movers[v].candidates[m].dir && -SCORE_CAP <= r.options[v][m].score
                    <= 2 * SCORE_CAP by {
                    assert(r.options[v][m] == options_at(movers@, *self, v)[m]);
                    let c = movers[v].candidates[m];
                    assert(-SCORE_CAP <= c.base <= SCORE_CAP);
                    assert(0 <= c.threat <= SCORE_CAP);
                    let sc = open_score(
                        c,
                        blocked_at(movers@, *self, v)[m],
                        self.immovable.at_pos(c.pos),
                    );
                    assert(-SCORE_CAP <= sc <= SCORE_CAP + SCORE_CAP);
                    assert(r.options[v][m].score == sc as i64);
                }
            }
        }
        r
    }
}

/// A cell that a ship pushed aside can move to: no ship that cannot move
/// stands on it and no moving ship has reserved it.
pub open spec fn is_free(board: Board, p: Point) -> bool {
    !board.immovable.at_pos(p) && board.movable_next.at_pos(p).is_none()
}

/// Among the first `n` options, the first with the least score of those
/// that end on a free cell.
pub open spec fn best_free(board: Board, opts: Seq<MoveOption>, n: int) -> Option<int>
    decreases n,
{
    if n <= 0 {
        None
    } else {
        let prev = best_free(board, opts, n - 1);
        if is_free(board, opts[n - 1].pos) && (prev.is_none() || opts[n - 1].score
            < opts[prev.unwrap()].score) {
            Some(n - 1)
        } else {
            prev
        }
    }
}

/// Whether the cell `p` was given up by one of the ships of the chain.
pub open spec fn visited(chain: Seq<(usize, Point, Direction)>, p: Point) -> bool {
    exists|i: int| 0 <= i < chain.len() && (#[trigger] chain[i]).1 == p
}

/// What comes of asking for the cell `prev_pos` when the ships in `chain`
/// have already been pushed aside at a total change of score of `cost`.
///
/// If nobody has reserved the cell, the chain stands as it is. Otherwise the
/// holder is pushed: it takes its cheapest move onto a free cell, which ends
/// the chain; or, if it has none and meant to move, it stays where it is and
/// asks in turn for its own cell. The chain fails where a ship that cannot
/// move stands on the cell, where the holder has no command or meant to
/// stand still and has no free cell, where the chain comes back to a cell
/// that it has been through, and where a holder is found after every mover
/// has been pushed.
pub open spec fn chain_from(
    board: Board,
    movers: Seq<Mover>,
    options: Seq<Vec<MoveOption>>,
    prev_pos: Point,
    chain: Seq<(usize, Point, Direction)>,
    cost: int,
) -> Option<(int, Seq<(usize, Point, Direction)>)>
    decreases movers.len() - chain.len(),
{
    if board.immovable.at_pos(prev_pos) || visited(chain, prev_pos) {
        None
    } else {
        match board.movable_next.at_pos(prev_pos) {
            None => Some((cost, chain)),
            Some(c) => if chain.len() >= movers.len() {
                None
            } else {
                match board.commands[c as int] {
                    None => None,
                    Some(curr_dir) => {
                        let opts = options[c as int]@;
                        let prev_score = opts[curr_dir.index()].score;
                        match best_free(board, opts, 5) {
                            Some(m) => Some(
                                (
                                    cost + opts[m].score - prev_score,
                                    chain.push((c, prev_pos, opts[m].dir)),
                                ),
                            ),
                            None => if curr_dir == Direction::Still {
                                None
                            } else {
                                chain_from(
                                    board,
                                    movers,
                                    options,
                                    opts[4].pos,
                                    chain.push((c, prev_pos, Direction::Still)),
                                    cost + opts[4].score - prev_score,
                                )
                            },
                        }
                    },
                }
            },
        }
    }
}

/// A chain that can be carried out on the board: each of its ships holds
/// the cell it gives up, no cell is given up twice, every ship but the last
/// stays where it is, on the cell that the next ship gives up, and the last
/// ship moves onto a free cell.
pub open spec fn chain_ok(
    w: int,
    h: int,
    board: Board,
    movers: Seq<Mover>,
    pos: Point,
    chain: Seq<(usize, Point, Direction)>,
) -> bool {
    &&& forall|i: int|
        0 <= i < chain.len() ==> {
            &&& in_grid(w, h, (#[trigger] chain[i]).1)
            &&& board.movable_next.at_pos(chain[i].1) == Some(chain[i].0)
        }
    &&& forall|i: int, j: int| 0 <= i < j < chain.len() ==> chain[i].1 != chain[j].1
    &&& forall|i: int|
        0 <= i < chain.len() - 1 ==> (#[trigger] chain[i]).2 == Direction::Still && dest(
            movers,
            chain[i].0 as int,
            Direction::Still,
        ) == chain[i + 1].1
    &&& chain.len() > 0 ==> chain[0].1 == pos && is_free(
        board,
        dest(movers, chain.last().0 as int, chain.last().2),
    )
    &&& chain.len() == 0 ==> is_free(board, pos)
}

/// The options fit the movers: five for each, on the cells and in the
/// directions of the candidates, with scores within bounds.
pub open spec fn options_ok(movers: Seq<Mover>, options: Seq<Vec<MoveOption>>) -> bool {
    &&& options.len() == movers.len()
    &&& forall|u: int|
        0 <= u < movers.len() ==> {
            &&& (#[trigger] options[u]).len() == 5
            &&& forall|m: int|
                0 <= m < 5 ==> (#[trigger] options[u][m]).pos == movers[u].candidates[m].pos
                    && options[u][m].dir == movers[u].candidates[m].dir && -SCORE_CAP
                    <= options[u][m].score <= 2 * SCORE_CAP
        }
}

/// The first cheapest option of a ship that ends on a free cell.
fn find_free(board: &Board, w: usize, h: usize, opts: &Vec<MoveOption>) -> (r: Option<usize>)
    requires
        board.wf(w as int, h as int),
        opts.len() == 5,
        forall|m: int| 0 <= m < 5 ==> in_grid(w as int, h as int, (#[trigger] opts[m]).pos),
    ensures
        match r {
            Some(m) => best_free(*board, opts@, 5) == Some(m as int) && m < 5 && is_free(
                *board,
                opts[m as int].pos,
            ),
            None => best_free(*board, opts@, 5).is_none(),
        },
{
    let mut best: Option<usize> = None;
    let mut m: usize = 0;
    while m < 5
        invariant
            board.wf(w as int, h as int),
            opts.len() == 5,
            forall|k: int| 0 <= k < 5 ==> in_grid(w as int, h as int, (#[trigger] opts[k]).pos),
            m <= 5,
            match best {
                Some(b) => best_free(*board, opts@, m as int) == Some(b as int) && b < m && is_free(
                    *board,
                    opts[b as int].pos,
                ),
                None => best_free(*board, opts@, m as int).is_none(),
            },
        decreases 5 - m,
    {
        let o = opts[m];
        let free = !*board.immovable.get(o.pos) && board.movable_next.get(o.pos).is_none();
        let better = match best {
            Some(b) => o.score < opts[b].score,
            None => true,
        };
        if free && better {
            best = Some(m);
        }
        m += 1;
    }
    best
}

/// Follows the chain of ships that must step aside if the cell `pos` is
/// to be had. Gives the ships of the chain, each with the cell it gives up
/// and its new move, and the sum of what their scores change by; or nothing
/// if the cell cannot be had.
#[verifier::spinoff_prover]
pub fn resolve_movable_chain(
    board: &Board,
    w: usize,
    h: usize,
    movers: &Vec<Mover>,
    options: &Vec<Vec<MoveOption>>,
    pos: Point,
) -> (r: Option<(i128, Vec<(usize, Point, Direction)>)>)
    requires
        board.wf(w as int, h as int),
        board.safe(w as int, h as int, movers@),
        board.commands.len() == movers.len(),
        forall|i: int| 0 <= i < movers.len() ==> (#[trigger] movers[i]).wf(w as int, h as int),
        options_ok(movers@, options@),
        in_grid(w as int, h as int, pos),
    ensures
        match (r, chain_from(*board, movers@, options@, pos, Seq::empty(), 0)) {
            (None, None) => true,
            (Some(found), Some(stated)) => found.0 == stated.0 && found.1@ == stated.1,
            _ => false,
        },
        match r {
            Some(found) => chain_ok(w as int, h as int, *board, movers@, pos, found.1@)
                && found.1.len() <= movers.len() && -(found.1.len() * 4 * SCORE_CAP) <= found.0
                <= found.1.len() * 4 * SCORE_CAP,
            None => true,
        },
{
    let ghost goal = chain_from(*board, movers@, options@, pos, Seq::empty(), 0);
    let mut chain: Vec<(usize, Point, Direction)> = Vec::new();
    let mut cost: i128 = 0;
    let mut prev_pos = pos;
    assert(chain@ =~= Seq::empty());
    loop
        invariant
            goal == chain_from(*board, movers@, options@, pos, Seq::empty(), 0),
            board.wf(w as int, h as int),
            board.safe(w as int, h as int, movers@),
            board.commands.len() == movers.len(),
            forall|i: int| 0 <= i < movers.len() ==> (#[trigger] movers[i]).wf(w as int, h as int),
            options_ok(movers@, options@),
            in_grid(w as int, h as int, prev_pos),
            goal == chain_from(*board, movers@, options@, prev_pos, chain@, cost as int),
            chain.len() <= movers.len(),
            -(chain.len() * 4 * SCORE_CAP) <= cost <= chain.len() * 4 * SCORE_CAP,
            forall|i: int|
                0 <= i < chain.len() ==> {
                    &&& in_grid(w as int, h as int, (#[trigger] chain[i]).1)
                    &&& board.movable_next.at_pos(chain[i].1) == Some(chain[i].0)
                },
            forall|i: int, j: int| 0 <= i < j < chain.len() ==> chain[i].1 != chain[j].1,
            forall|i: int|
                0 <= i < chain.len() - 1 ==> (#[trigger] chain[i]).2 == Direction::Still && dest(
                    movers@,
                    chain[i].0 as int,
                    Direction::Still,
                ) == chain[i + 1].1,
            chain.len() > 0 ==> chain[0].1 == pos && chain@.last().2 == Direction::Still && dest(
                movers@,
                chain@.last().0 as int,
                Direction::Still,
            ) == prev_pos,
            chain.len() == 0 ==> prev_pos == pos,
        decreases movers.len() - chain.len(),
    {
        if *board.immovable.get(prev_pos) {
            return None;
        }
        let mut seen = false;
        let mut i: usize = 0;
        while i < chain.len()
            invariant
                i <= chain.len(),
                seen == exists|k: int| 0 <= k < i && (#[trigger] chain[k]).1 == prev_pos,
            decreases chain.len() - i,
        {
            if chain[i].1.x == prev_pos.x && chain[i].1.y == prev_pos.y {
                seen = true;
            }
            i += 1;
        }
        assert(seen == visited(chain@, prev_pos));
        if seen {
            return None;
        }
        match *board.movable_next.get(prev_pos) {
            None => {
                proof {
                    if chain.len() > 0 {
                        assert(is_free(*board, prev_pos));
                    }
                }
                return Some((cost, chain));
            },
            Some(c) => {
                if chain.len() >= movers.len() {
                    return None;
                }
                assert(c < movers.len());
                match board.commands[c] {
                    None => {
                        return None;
                    },
                    Some(curr_dir) => {
                        let opts = &options[c];
                        assert(movers[c as int].wf(w as int, h as int));
                        assert forall|m: int| 0 <= m < 5 implies in_grid(
                            w as int,
                            h as int,
                            (#[trigger] opts[m]).pos,
                        ) by {
                            assert(opts[m].pos == movers[c as int].candidates[m].pos);
                        }
                        let curr_idx: usize = match curr_dir {
                            Direction::North => 0,
                            Direction::East => 1,
                            Direction::South => 2,
                            Direction::West => 3,
                            Direction::Still => 4,
                        };
                        let prev_score = opts[curr_idx].score;
                        let still_score = opts[4].score;
                        let ghost old_chain = chain@;
                        match find_free(board, w, h, opts) {
                            Some(m) => {
                                let gain: i128 = (opts[m].score as i128) - (prev_score as i128);
                                chain.push((c, prev_pos, opts[m].dir));
                                proof {
                                    assert(opts[m as int].dir == movers[c as int].candidates[m as int].dir);
                                    assert(opts[m as int].dir == Direction::all()[m as int]);
                                    assert(opts[m as int].dir.index() == m);
                                    assert(dest(movers@, c as int, opts[m as int].dir)
                                        == opts[m as int].pos);
                                    assert(chain@.last() == (c, prev_pos, opts[m as int].dir));
                                    assert(forall|k: int|
                                        0 <= k < old_chain.len() ==> chain[k] == old_chain[k]);
                                    assert(chain_ok(
                                        w as int,
                                        h as int,
                                        *board,
                                        movers@,
                                        pos,
                                        chain@,
                                    ));
                                    assert(chain.len() * 4 * SCORE_CAP == old_chain.len() * 4
                                        * SCORE_CAP + 4 * SCORE_CAP) by (nonlinear_arith)
                                        requires
                                            chain.len() == old_chain.len() + 1,
                                    ;
                                }
                                return Some((cost + gain, chain));
                            },
                            None => {
                                if curr_idx == 4 {
                                    return None;
                                }
                                let gain: i128 = (still_score as i128) - (prev_score as i128);
                                chain.push((c, prev_pos, Direction::Still));
                                proof {
                                    assert(opts[4].pos == movers[c as int].candidates[4].pos);
                                    assert(forall|k: int|
                                        0 <= k < old_chain.len() ==> chain[k] == old_chain[k]);
                                    assert(chain.len() * 4 * SCORE_CAP == old_chain.len() * 4
                                        * SCORE_CAP + 4 * SCORE_CAP) by (nonlinear_arith)
                                        requires
                                            chain.len() == old_chain.len() + 1,
                                    ;
                                }
                                cost = cost + gain;
                                prev_pos = opts[4].pos;
                            },
                        }
                    },
                }
            },
        }
    }
}

/// The commands after the ships of a chain, from its `i`-th on, have been
/// given their new moves.
pub open spec fn bumped(
    commands: Seq<Option<Direction>>,
    chain: Seq<(usize, Point, Direction)>,
    i: int,
) -> Seq<Option<Direction>>
    decreases chain.len() - i,
{
    if i >= chain.len() || i < 0 {
        commands
    } else {
        bumped(commands, chain, i + 1).update(chain[i].0 as int, Some(chain[i].2))
    }
}

/// How a reroute of the `x`-th ship by its `m`-th move ranks: the number of
/// ships that move otherwise than they wished, and the change of the sum of
/// their scores. Nothing if that move's cell cannot be had.
pub open spec fn reroute_rank(
    board: Board,
    movers: Seq<Mover>,
    options: Seq<Vec<MoveOption>>,
    wish: Direction,
    x: int,
    m: int,
) -> Option<(int, int)> {
    match chain_from(board, movers, options, options[x][m].pos, Seq::empty(), 0) {
        None => None,
        Some(found) => Some(
            (
                found.1.len() + if options[x][m].dir != wish { 1int } else { 0int },
                found.0 + options[x][m].score,
            ),
        ),
    }
}

/// Fewer ships disturbed ranks first; among equals, the lesser change of score.
pub open spec fn ranks_before(a: (int, int), b: (int, int)) -> bool {
    a.0 < b.0 || (a.0 == b.0 && a.1 < b.1)
}

/// The `m`-th move gives the reroute that ranks first among those that can
/// be had, and is the first move that does.
pub open spec fn best_reroute(
    board: Board,
    movers: Seq<Mover>,
    options: Seq<Vec<MoveOption>>,
    wish: Direction,
    x: int,
    m: int,
) -> bool {
    &&& 0 <= m < 5
    &&& reroute_rank(board, movers, options, wish, x, m).is_some()
    &&& forall|k: int|
        0 <= k < 5 ==> match #[trigger] reroute_rank(board, movers, options, wish, x, k) {
            Some(rk) => !ranks_before(
                rk,
                reroute_rank(board, movers, options, wish, x, m).unwrap(),
            ) && (k < m ==> ranks_before(
                reroute_rank(board, movers, options, wish, x, m).unwrap(),
                rk,
            )),
            None => true,
        }
}

/// How the board `after` a try to reroute the `x`-th ship relates to the
/// board `before` it, where `r` says which of the ship's moves was taken.
///
/// With no move to be had nothing changes. Else the ship takes the move
/// whose reroute ranks first, the ships of that move's chain take the moves
/// the chain gives them, and the reservations follow the commands.
pub open spec fn rerouted(
    w: int,
    h: int,
    before: Board,
    after: Board,
    movers: Seq<Mover>,
    options: Seq<Vec<MoveOption>>,
    wish: Direction,
    x: int,
    r: Option<usize>,
) -> bool {
    match r {
        None => after == before && forall|m: int|
            0 <= m < 5 ==> (#[trigger] reroute_rank(before, movers, options, wish, x, m)).is_none(),
        Some(m) => {
            &&& best_reroute(before, movers, options, wish, x, m as int)
            &&& after.commands@ == bumped(
                before.commands@,
                chain_from(
                    before,
                    movers,
                    options,
                    options[x][m as int].pos,
                    Seq::empty(),
                    0,
                ).unwrap().1,
                0,
            ).update(x, Some(options[x][m as int].dir))
            &&& after.immovable == before.immovable
            &&& after.shared == before.shared
            &&& after.wf(w, h)
            &&& after.safe(w, h, movers)
            &&& after.tracks(w, h, movers, movers.len() as int)
        },
    }
}

impl Board {
    /// Commits the `u`-th ship to the move `d`, which ends on a free cell
    /// or on one where ships may meet: the cell it had reserved is given up
    /// and the new one reserved.
    #[verifier::rlimit(60)]
    #[verifier::spinoff_prover]
    fn recommit(&mut self, w: usize, h: usize, movers: &Vec<Mover>, u: usize, d: Direction)
        requires
            old(self).wf(w as int, h as int),
            old(self).safe(w as int, h as int, movers@),
            old(self).tracks(w as int, h as int, movers@, movers.len() as int),
            old(self).commands.len() == movers.len(),
            forall|i: int| 0 <= i < movers.len() ==> (#[trigger] movers[i]).wf(w as int, h as int),
            u < movers.len(),
            is_free(*old(self), dest(movers@, u as int, d)) || old(self).shared.at_pos(
                dest(movers@, u as int, d),
            ),
        ensures
            final(self).wf(w as int, h as int),
            final(self).safe(w as int, h as int, movers@),
            final(self).tracks(w as int, h as int, movers@, movers.len() as int),
            final(self).commands@ == old(self).commands@.update(u as int, Some(d)),
            final(self).immovable == old(self).immovable,
            final(self).shared == old(self).shared,
            forall|p: Point|
                in_grid(w as int, h as int, p) && p != dest(movers@, u as int, d) && !holds(
                    movers@,
                    old(self).commands@,
                    u as int,
                    p,
                ) ==> #[trigger] final(self).movable_next.at_pos(p) == old(self).movable_next.at_pos(
                    p,
                ),
            forall|p: Point|
                in_grid(w as int, h as int, p) && p != dest(movers@, u as int, d) && holds(
                    movers@,
                    old(self).commands@,
                    u as int,
                    p,
                ) ==> (#[trigger] final(self).movable_next.at_pos(p)).is_none(),
    {
        let n = movers.len();
        let ghost n_int = n as int;
        assert(movers[u as int].wf(w as int, h as int));
        let d_idx: usize = match d {
            Direction::North => 0,
            Direction::East => 1,
            Direction::South => 2,
            Direction::West => 3,
            Direction::Still => 4,
        };
        let target = movers[u].candidates[d_idx].pos;
        assert(target == dest(movers@, u as int, d));
        assert(in_grid(w as int, h as int, movers[u as int].candidates[d_idx as int].pos));
        let ghost old_cmds = self.commands@;
        let ghost before = *self;
        match self.commands[u] {
            Some(old_d) => {
                let o_idx: usize = match old_d {
                    Direction::North => 0,
                    Direction::East => 1,
                    Direction::South => 2,
                    Direction::West => 3,
                    Direction::Still => 4,
                };
                let old_cell = movers[u].candidates[o_idx].pos;
                assert(old_cell == dest(movers@, u as int, old_d));
                assert(in_grid(w as int, h as int, movers[u as int].candidates[o_idx as int].pos));
                if !*self.shared.get(old_cell) {
                    self.forbidden.set(old_cell, false);
                    self.movable_next.set(old_cell, None);
                }
            },
            None => {},
        }
        self.commands.set(u, Some(d));
        if !*self.shared.get(target) {
            self.forbidden.set(target, true);
            self.movable_next.set(target, Some(u));
        }
        proof {
            assert(self.commands@ =~= old_cmds.update(u as int, Some(d)));
            let cmds = self.commands@;
            assert forall|v: int, p: Point| 0 <= v < n_int && v != u implies #[trigger] holds(
                movers@,
                cmds,
                v,
                p,
            ) == holds(movers@, old_cmds, v, p) by {}
            assert forall|p: Point| holds(movers@, cmds, u as int, p) == (p == target) by {}
            // a cell held by another committed ship is reserved for that ship
            assert forall|v: int, p: Point|
                0 <= v < n_int && v != u && in_grid(w as int, h as int, p) && #[trigger] holds(
                    movers@,
                    old_cmds,
                    v,
                    p,
                ) && !before.shared.at_pos(p) implies before.movable_next.at_pos(p) == Some(
                v as usize,
            ) && p != target && !holds(movers@, old_cmds, u as int, p) by {
                assert(before.commands[v].is_some());
                if holds(movers@, old_cmds, u as int, p) {
                    assert(before.commands[u as int].is_some());
                }
            }
            assert forall|p: Point| in_grid(w as int, h as int, p) implies taken_by(
                movers@,
                cmds,
                n_int,
                p,
            ) == (p == target || exists|v: int|
                0 <= v < n_int && v != u && #[trigger] holds(movers@, old_cmds, v, p)) by {
                if taken_by(movers@, cmds, n_int, p) {
                    let v = choose|v: int| 0 <= v < n_int && #[trigger] holds(movers@, cmds, v, p);
                    if v != u {
                        assert(holds(movers@, old_cmds, v, p));
                    }
                }
                if p == target {
                    assert(holds(movers@, cmds, u as int, p));
                }
                if exists|v: int| 0 <= v < n_int && v != u && #[trigger] holds(movers@, old_cmds, v, p) {
                    let v = choose|v: int|
                        0 <= v < n_int && v != u && #[trigger] holds(movers@, old_cmds, v, p);
                    assert(holds(movers@, cmds, v, p));
                }
            }
            assert forall|p: Point| in_grid(w as int, h as int, p) implies #[trigger] self.forbidden.at_pos(
                p,
            ) == (!self.shared.at_pos(p) && (self.immovable.at_pos(p) || taken_by(
                movers@,
                cmds,
                n_int,
                p,
            ))) by {
                assert(before.forbidden.has(p));
                assert(before.movable_next.has(p));
                assert(before.forbidden.at_pos(p) == (!before.shared.at_pos(p) && (
                before.immovable.at_pos(p) || taken_by(movers@, old_cmds, n_int, p))));
                if taken_by(movers@, old_cmds, n_int, p) {
                    let v = choose|v: int| 0 <= v < n_int && #[trigger] holds(movers@, old_cmds, v, p);
                    assert(holds(movers@, old_cmds, v, p));
                }
                if holds(movers@, old_cmds, u as int, p) && !before.shared.at_pos(p) {
                    assert(before.commands[u as int].is_some());
                    assert(before.movable_next.at_pos(p) == Some(u));
                }
            }
            assert forall|p: Point| in_grid(w as int, h as int, p) implies match #[trigger] self.movable_next.at_pos(
                p,
            ) {
                Some(v) => v < n && holds(movers@, cmds, v as int, p) && !self.immovable.at_pos(p)
                    && !self.shared.at_pos(p),
                None => true,
            } by {
                assert(before.movable_next.has(p));
                match before.movable_next.at_pos(p) {
                    Some(v) => {
                        assert(holds(movers@, old_cmds, v as int, p));
                    },
                    None => {},
                }
            }
            assert forall|v: int| 0 <= v < self.commands.len() implies match #[trigger] self.commands[v] {
                Some(dv) => self.shared.at_pos(dest(movers@, v, dv)) || self.movable_next.at_pos(
                    dest(movers@, v, dv),
                ) == Some(v as usize),
                None => true,
            } by {
                if v != u {
                    match before.commands[v] {
                        Some(dv) => {
                            let q = dest(movers@, v, dv);
                            assert(movers[v].wf(w as int, h as int));
                            assert(in_grid(w as int, h as int, movers[v].candidates[dv.index()].pos));
                            assert(before.movable_next.has(q));
                            assert(holds(movers@, old_cmds, v, q));
                        },
                        None => {},
                    }
                }
            }
            assert forall|p: Point|
                in_grid(w as int, h as int, p) && p != target && !holds(
                    movers@,
                    old_cmds,
                    u as int,
                    p,
                ) implies #[trigger] self.movable_next.at_pos(p) == before.movable_next.at_pos(
                p,
            ) by {
                assert(before.movable_next.has(p));
            }
            assert forall|p: Point|
                in_grid(w as int, h as int, p) && p != target && holds(
                    movers@,
                    old_cmds,
                    u as int,
                    p,
                ) implies (#[trigger] self.movable_next.at_pos(p)).is_none() by {
                assert(before.movable_next.has(p));
                assert(before.commands[u as int].is_some());
                if before.shared.at_pos(p) {
                    assert(before.movable_next.at_pos(p).is_none());
                }
            }
        }
    }
}

/// A ship holds at most one cell.
pub proof fn lemma_holds_one(
    movers: Seq<Mover>,
    commands: Seq<Option<Direction>>,
    v: int,
    p: Point,
    q: Point,
)
    requires
        holds(movers, commands, v, p),
        holds(movers, commands, v, q),
    ensures
        p == q,
{
}

impl Board {
    /// Tries to find a move for the `x`-th ship, which has none, by asking
    /// the holders of its five cells to step aside. Of the moves that can be
    /// had, the one is taken that makes the fewest ships move otherwise than
    /// they wished and, among those, changes the scores least. Gives the
    /// place of the move taken among the ship's five, if any.
    #[verifier::spinoff_prover]
    pub fn reroute(
        &mut self,
        w: usize,
        h: usize,
        movers: &Vec<Mover>,
        options: &Vec<Vec<MoveOption>>,
        wishes: &Vec<Direction>,
        x: usize,
    ) -> (r: Option<usize>)
        requires
            old(self).wf(w as int, h as int),
            old(self).safe(w as int, h as int, movers@),
            old(self).tracks(w as int, h as int, movers@, movers.len() as int),
            old(self).commands.len() == movers.len(),
            forall|i: int| 0 <= i < movers.len() ==> (#[trigger] movers[i]).wf(w as int, h as int),
            options_ok(movers@, options@),
            wishes.len() == movers.len(),
            x < movers.len(),
            old(self).commands[x as int].is_none(),
        ensures
            rerouted(
                w as int,
                h as int,
                *old(self),
                *final(self),
                movers@,
                options@,
                wishes[x as int],
                x as int,
                r,
            ),
            final(self).commands.len() == movers.len(),
            forall|v: int|
                0 <= v < movers.len() && v != x ==> (#[trigger] final(self).commands[v]).is_none()
                    == old(self).commands[v].is_none(),
            final(self).commands[x as int].is_some() == r.is_some(),
    {
        let ghost before = *self;
        let wish = wishes[x];
        assert(movers[x as int].wf(w as int, h as int));
        let mut best: Option<usize> = None;
        let mut best_num: u128 = 0;
        let mut best_cost: i128 = 0;
        let mut best_chain: Vec<(usize, Point, Direction)> = Vec::new();
        let mut m: usize = 0;
        while m < 5
            invariant
                *self == before,
                self.wf(w as int, h as int),
                self.safe(w as int, h as int, movers@),
                self.commands.len() == movers.len(),
                forall|i: int|
                    0 <= i < movers.len() ==> (#[trigger] movers[i]).wf(w as int, h as int),
                options_ok(movers@, options@),
                x < movers.len(),
                wish == wishes[x as int],
                m <= 5,
                match best {
                    None => forall|k: int|
                        0 <= k < m ==> (#[trigger] reroute_rank(
                            before,
                            movers@,
                            options@,
                            wish,
                            x as int,
                            k,
                        )).is_none(),
                    Some(b) => {
                        &&& b < m
                        &&& reroute_rank(before, movers@, options@, wish, x as int, b as int)
                            == Some((best_num as int, best_cost as int))
                        &&& chain_from(
                            before,
                            movers@,
                            options@,
                            options[x as int][b as int].pos,
                            Seq::empty(),
                            0,
                        ) matches Some(found) && found.1 == best_chain@
                        &&& chain_ok(
                            w as int,
                            h as int,
                            before,
                            movers@,
                            options[x as int][b as int].pos,
                            best_chain@,
                        )
                        &&& forall|k: int|
                            0 <= k < m ==> match #[trigger] reroute_rank(
                                before,
                                movers@,
                                options@,
                                wish,
                                x as int,
                                k,
                            ) {
                                Some(rk) => !ranks_before(rk, (best_num as int, best_cost as int))
                                    && (k < b ==> ranks_before(
                                    (best_num as int, best_cost as int),
                                    rk,
                                )),
                                None => true,
                            }
                    },
                },
            decreases 5 - m,
        {
            let o = options[x][m];
            assert(o.pos == movers[x as int].candidates[m as int].pos);
            let found = resolve_movable_chain(self, w, h, movers, options, o.pos);
            match found {
                Some((gain, chain)) => {
                    let mut num: u128 = chain.len() as u128;
                    let differs = match (o.dir, wish) {
                        (Direction::North, Direction::North) => false,
                        (Direction::East, Direction::East) => false,
                        (Direction::South, Direction::South) => false,
                        (Direction::West, Direction::West) => false,
                        (Direction::Still, Direction::Still) => false,
                        _ => true,
                    };
                    assert(differs == (o.dir != wish));
                    if differs {
                        num = num + 1;
                    }
                    assert(chain.len() * 4 * SCORE_CAP <= 0x1_0000_0000_0000_0000 * 4 * SCORE_CAP)
                        by (nonlinear_arith)
                        requires
                            chain.len() <= 0x1_0000_0000_0000_0000,
                    ;
                    let cost: i128 = gain + (o.score as i128);
                    let better = match best {
                        None => true,
                        Some(_) => num < best_num || (num == best_num && cost < best_cost),
                    };
                    if better {
                        best = Some(m);
                        best_num = num;
                        best_cost = cost;
                        best_chain = chain;
                    }
                },
                None => {},
            }
            m += 1;
        }
        let pick = match best {
            None => {
                return None;
            },
            Some(b) => b,
        };
        let target = options[x][pick];
        assert(target.pos == movers[x as int].candidates[pick as int].pos);
        assert(target.dir == movers[x as int].candidates[pick as int].dir);
        assert(target.dir == Direction::all()[pick as int]);
        assert(target.dir.index() == pick);
        assert(dest(movers@, x as int, target.dir) == target.pos);
        let ghost chain = best_chain@;
        let mut i: usize = best_chain.len();
        while i > 0
            invariant
                self.wf(w as int, h as int),
                self.safe(w as int, h as int, movers@),
                self.tracks(w as int, h as int, movers@, movers.len() as int),
                self.commands.len() == movers.len(),
                self.immovable == before.immovable,
                self.shared == before.shared,
                forall|k: int|
                    0 <= k < movers.len() ==> (#[trigger] movers[k]).wf(w as int, h as int),
                x < movers.len(),
                chain == best_chain@,
                chain_ok(w as int, h as int, before, movers@, target.pos, chain),
                before.wf(w as int, h as int),
                before.safe(w as int, h as int, movers@),
                in_grid(w as int, h as int, target.pos),
                i <= chain.len(),
                i == chain.len() ==> *self == before,
                self.commands@ == bumped(before.commands@, chain, i as int),
                forall|j: int|
                    0 <= j < i ==> self.movable_next.at_pos((#[trigger] chain[j]).1) == Some(
                        chain[j].0,
                    ),
                i < chain.len() ==> is_free(*self, chain[i as int].1),
                forall|v: int|
                    0 <= v < movers.len() ==> (#[trigger] self.commands[v]).is_none()
                        == before.commands[v].is_none(),
            decreases i,
        {
            let idx = i - 1;
            let (c, vacated, d) = best_chain[idx];
            let ghost mid = *self;
            proof {
                assert(chain[idx as int] == (c, vacated, d));
                assert(in_grid(w as int, h as int, chain[idx as int].1));
                assert(mid.movable_next.at_pos(vacated) == Some(c));
                assert(c < movers.len() && holds(movers@, mid.commands@, c as int, vacated));
                assert(!mid.immovable.at_pos(vacated));
                if idx as int == chain.len() - 1 {
                    assert(chain.last() == chain[idx as int]);
                } else {
                    assert(dest(movers@, c as int, d) == chain[idx as int + 1].1);
                }
                assert(is_free(mid, dest(movers@, c as int, d)));
            }
            self.recommit(w, h, movers, c, d);
            proof {
                assert(self.commands@ == bumped(before.commands@, chain, idx as int));
                assert forall|j: int| 0 <= j < idx implies self.movable_next.at_pos(
                    (#[trigger] chain[j]).1,
                ) == Some(chain[j].0) by {
                    let p = chain[j].1;
                    assert(in_grid(w as int, h as int, p));
                    assert(mid.movable_next.at_pos(p) == Some(chain[j].0));
                    assert(p != vacated);
                    if holds(movers@, mid.commands@, c as int, p) {
                        lemma_holds_one(movers@, mid.commands@, c as int, p, vacated);
                    }
                }
                assert(mid.commands[c as int].is_some());
            }
            i = idx;
        }
        proof {
            if chain.len() > 0 {
                assert(is_free(*self, target.pos));
            }
            assert(self.commands[x as int].is_none());
        }
        self.recommit(w, h, movers, x, target.dir);
        Some(pick)
    }
}

/// The boards that the second round passes through: one try to reroute
/// for each of the ships put back, in their order, each starting from the
/// board that the one before it left.
pub open spec fn reroutes(
    w: int,
    h: int,
    movers: Seq<Mover>,
    pass: FirstPass,
    boards: Seq<Board>,
    picks: Seq<Option<usize>>,
) -> bool {
    &&& boards.len() == pass.colliding.len() + 1
    &&& picks.len() == pass.colliding.len()
    &&& forall|i: int|
        0 <= i < pass.colliding.len() ==> rerouted(
            w,
            h,
            #[trigger] boards[i],
            boards[i + 1],
            movers,
            pass.options@,
            pass.wishes[pass.colliding[i] as int],
            pass.colliding[i] as int,
            picks[i],
        )
}

impl Board {
    /// The second round: every ship that the first round put back tries in
    /// turn to have one of its cells vacated for it. Gives the ships for which
    /// no cell could be had; they are left without a command.
    #[verifier::spinoff_prover]
    pub fn fix_collisions(&mut self, w: usize, h: usize, movers: &Vec<Mover>, pass: &FirstPass) -> (failed:
        Vec<usize>)
        requires
            old(self).wf(w as int, h as int),
            old(self).safe(w as int, h as int, movers@),
            old(self).tracks(w as int, h as int, movers@, movers.len() as int),
            old(self).commands.len() == movers.len(),
            forall|i: int| 0 <= i < movers.len() ==> (#[trigger] movers[i]).wf(w as int, h as int),
            pass.wf(movers@),
            forall|i: int, j: int|
                0 <= i < j < pass.colliding.len() ==> pass.colliding[i] < pass.colliding[j],
            forall|i: int|
                0 <= i < pass.colliding.len() ==> (#[trigger] pass.colliding[i]) < movers.len()
                    && old(self).commands[pass.colliding[i] as int].is_none(),
            forall|u: int|
                0 <= u < movers.len() && (#[trigger] old(self).commands[u]).is_none()
                    ==> pass.colliding@.contains(u as usize),
        ensures
            final(self).wf(w as int, h as int),
            final(self).safe(w as int, h as int, movers@),
            final(self).tracks(w as int, h as int, movers@, movers.len() as int),
            final(self).commands.len() == movers.len(),
            final(self).immovable == old(self).immovable,
            final(self).shared == old(self).shared,
            exists|boards: Seq<Board>, picks: Seq<Option<usize>>|
                {
                    &&& #[trigger] reroutes(w as int, h as int, movers@, *pass, boards, picks)
                    &&& boards[0] == *old(self)
                    &&& boards.last() == *final(self)
                    &&& failed@ == Seq::new(
                        pass.colliding.len() as nat,
                        |i: int| pass.colliding[i],
                    ).filter(|u: usize| final(self).commands[u as int].is_none())
                },
            forall|u: int|
                0 <= u < movers.len() ==> ((#[trigger] final(self).commands[u]).is_none()
                    <==> failed@.contains(u as usize)),
            forall|u: int|
                0 <= u < movers.len() && old(self).commands[u].is_some() ==> (
                #[trigger] final(self).commands[u]).is_some(),
            forall|j: int| 0 <= j < failed.len() ==> (#[trigger] failed[j]) < movers.len(),
    {
        let ghost start = *self;
        let ghost all = Seq::new(pass.colliding.len() as nat, |i: int| pass.colliding[i]);
        let mut failed: Vec<usize> = Vec::new();
        let ghost mut boards: Seq<Board> = seq![*self];
        let ghost mut picks: Seq<Option<usize>> = Seq::empty();
        proof {
            assert forall|u: int| 0 <= u < movers.len() implies (#[trigger] pass.options[u]).len()
                == 5 && forall|m: int|
                0 <= m < 5 ==> (#[trigger] pass.options[u][m]).pos == movers[u].candidates[m].pos
                    && pass.options[u][m].dir == movers[u].candidates[m].dir && -SCORE_CAP
                    <= pass.options[u][m].score <= 2 * SCORE_CAP by {}
            assert(options_ok(movers@, pass.options@));
        }
        let mut k: usize = 0;
        while k < pass.colliding.len()
            invariant
                k <= pass.colliding.len(),
                self.wf(w as int, h as int),
                self.safe(w as int, h as int, movers@),
                self.tracks(w as int, h as int, movers@, movers.len() as int),
                self.commands.len() == movers.len(),
                self.immovable == start.immovable,
                self.shared == start.shared,
                forall|i: int|
                    0 <= i < movers.len() ==> (#[trigger] movers[i]).wf(w as int, h as int),
                options_ok(movers@, pass.options@),
                pass.wf(movers@),
                forall|i: int, j: int|
                    0 <= i < j < pass.colliding.len() ==> pass.colliding[i] < pass.colliding[j],
                forall|i: int|
                    0 <= i < pass.colliding.len() ==> (#[trigger] pass.colliding[i]) < movers.len(),
                forall|i: int|
                    k <= i < pass.colliding.len() ==> self.commands[(
                    #[trigger] pass.colliding[i]) as int].is_none(),
                forall|i: int|
                    0 <= i < k ==> (self.commands[(#[trigger] pass.colliding[i]) as int].is_none()
                        <==> failed@.contains(pass.colliding[i])),
                forall|j: int|
                    0 <= j < failed.len() ==> exists|i: int|
                        0 <= i < k && pass.colliding[i] == #[trigger] failed[j],
                forall|u: int|
                    0 <= u < movers.len() && (#[trigger] self.commands[u]).is_none()
                        ==> pass.colliding@.contains(u as usize),
                forall|u: int|
                    0 <= u < movers.len() && start.commands[u].is_some() ==> (
                    #[trigger] self.commands[u]).is_some(),
                boards.len() == k + 1,
                picks.len() == k,
                boards[0] == start,
                boards.last() == *self,
                forall|i: int|
                    0 <= i < k ==> rerouted(
                        w as int,
                        h as int,
                        #[trigger] boards[i],
                        boards[i + 1],
                        movers@,
                        pass.options@,
                        pass.wishes[pass.colliding[i] as int],
                        pass.colliding[i] as int,
                        picks[i],
                    ),
                all == Seq::new(pass.colliding.len() as nat, |i: int| pass.colliding[i]),
                failed@ == all.subrange(0, k as int).filter(
                    |u: usize| self.commands[u as int].is_none(),
                ),
            decreases pass.colliding.len() - k,
        {
            let x = pass.colliding[k];
            let ghost mid = *self;
            let ghost old_failed = failed@;
            let r = self.reroute(w, h, movers, &pass.options, &pass.wishes, x);
            proof {
                boards = boards.push(*self);
                picks = picks.push(r);
            }
            if r.is_none() {
                failed.push(x);
            }
            proof {
                assert(mid == *self || r.is_some());
                let keep_mid = |u: usize| mid.commands[u as int].is_none();
                let keep = |u: usize| self.commands[u as int].is_none();
                let head = all.subrange(0, k as int);
                // ships that had their try keep what they came to
                assert forall|i: int| 0 <= i < k implies keep(#[trigger] head[i]) == keep_mid(
                    head[i],
                ) by {
                    assert(head[i] == pass.colliding[i]);
                    assert(pass.colliding[i] < pass.colliding[k as int]);
                }
                lemma_filter_same(head, keep_mid, keep);
                assert(all.subrange(0, k as int + 1) =~= head.push(x));
                lemma_filter_push(head, keep, x);
                assert forall|i: int| 0 <= i < k + 1 implies (self.commands[(
                #[trigger] pass.colliding[i]) as int].is_none() <==> failed@.contains(
                    pass.colliding[i],
                )) by {
                    if i < k {
                        assert(pass.colliding[i] < pass.colliding[k as int]);
                        assert(mid.commands[pass.colliding[i] as int].is_none()
                            <==> old_failed.contains(pass.colliding[i]));
                        if old_failed.contains(pass.colliding[i]) {
                            let j = choose|j: int|
                                0 <= j < old_failed.len() && old_failed[j] == pass.colliding[i];
                            assert(failed@[j] == pass.colliding[i]);
                        }
                        if failed@.contains(pass.colliding[i]) {
                            let j = choose|j: int|
                                0 <= j < failed@.len() && failed@[j] == pass.colliding[i];
                            if j < old_failed.len() {
                                assert(old_failed[j] == pass.colliding[i]);
                            }
                        }
                    } else {
                        if r.is_none() {
                            assert(failed@[failed.len() - 1] == x);
                        } else {
                            if failed@.contains(x) {
                                let j = choose|j: int| 0 <= j < failed@.len() && failed@[j] == x;
                                let i2 = choose|i2: int|
                                    0 <= i2 < k && pass.colliding[i2] == old_failed[j];
                                assert(pass.colliding[i2] < pass.colliding[k as int]);
                            }
                        }
                    }
                }
                assert forall|j: int| 0 <= j < failed.len() implies exists|i: int|
                    0 <= i < k + 1 && pass.colliding[i] == #[trigger] failed[j] by {
                    if j < old_failed.len() {
                        let i = choose|i: int| 0 <= i < k && pass.colliding[i] == old_failed[j];
                        assert(pass.colliding[i] == failed[j]);
                    } else {
                        assert(pass.colliding[k as int] == failed[j]);
                    }
                }
                assert forall|i: int| k + 1 <= i < pass.colliding.len() implies self.commands[(
                #[trigger] pass.colliding[i]) as int].is_none() by {
                    assert(pass.colliding[k as int] < pass.colliding[i]);
                    assert(mid.commands[pass.colliding[i] as int].is_none());
                }
                assert forall|u: int|
                    0 <= u < movers.len() && (
                    #[trigger] self.commands[u]).is_none() implies pass.colliding@.contains(
                    u as usize,
                ) by {
                    if u != x {
                        assert(mid.commands[u].is_none());
                    } else {
                        assert(pass.colliding@[k as int] == x);
                    }
                }
            }
            k += 1;
        }
        proof {
            assert forall|j: int| 0 <= j < failed.len() implies (#[trigger] failed[j])
                < movers.len() by {
                let i = choose|i: int| 0 <= i < k && pass.colliding[i] == failed[j];
                assert(pass.colliding[i] < movers.len());
            }
            assert(all.subrange(0, k as int) =~= all);
            assert(reroutes(w as int, h as int, movers@, *pass, boards, picks));
            assert forall|u: int| 0 <= u < movers.len() implies ((
            #[trigger] self.commands[u]).is_none() <==> failed@.contains(u as usize)) by {
                if self.commands[u].is_none() {
                    assert(pass.colliding@.contains(u as usize));
                    let i = choose|i: int|
                        0 <= i < pass.colliding.len() && pass.colliding[i] == u as usize;
                    assert(failed@.contains(pass.colliding[i]));
                }
                if failed@.contains(u as usize) {
                    let j = choose|j: int| 0 <= j < failed.len() && failed[j] == u as usize;
                    let i = choose|i: int| 0 <= i < k && pass.colliding[i] == failed[j];
                    assert(self.commands[pass.colliding[i] as int].is_none());
                }
            }
        }
        failed
    }
}

} // verus!
