//! A dense rectangular table with one entry per cell.

use vstd::prelude::*;
use crate::data::Point;

verus! {

/// Rows of equal length, indexed first by `y`, then by `x`.
#[derive(Debug)]
pub struct GMap<T> {
    pub gmap: Vec<Vec<T>>,
}

impl<T> GMap<T> {
    /// The table has `height` rows of `width` entries each.
    pub open spec fn wf(&self, width: int, height: int) -> bool {
        &&& self.gmap.len() == height
        &&& forall|y: int| 0 <= y < height ==> (#[trigger] self.gmap[y]).len() == width
    }

    /// The table as rows of entries.
    pub open spec fn cells(&self) -> Seq<Seq<T>> {
        Seq::new(self.gmap.len() as nat, |y: int| self.gmap[y]@)
    }

    /// The entry of column `x` in row `y`.
    pub open spec fn at(&self, x: int, y: int) -> T {
        self.gmap[y][x]
    }

    /// The entry of the cell `pos`.
    pub open spec fn at_pos(&self, pos: Point) -> T {
        self.gmap[pos.y as int][pos.x as int]
    }

    /// Whether `pos` names an entry of the table.
    pub open spec fn has(&self, pos: Point) -> bool {
        &&& 0 <= pos.y < self.gmap.len()
        &&& 0 <= pos.x < self.gmap[pos.y as int].len()
    }

    /// The entry of the cell `pos`.
    pub fn get(&self, pos: Point) -> (r: &T)
        requires
            self.has(pos),
        ensures
            *r == self.at_pos(pos),
    {
        &self.gmap[pos.y as usize][pos.x as usize]
    }

    /// The entry of column `x` in row `y`.
    pub fn get_idx(&self, x: usize, y: usize) -> (r: &T)
        requires
            y < self.gmap.len(),
            x < self.gmap[y as int].len(),
        ensures
            *r == self.at(x as int, y as int),
    {
        &self.gmap[y][x]
    }

    /// The entry of the cell `pos`, to be written through. What is written
    /// replaces that entry and no other.
    pub fn get_mut(&mut self, pos: Point) -> (r: &mut T)
        requires
            old(self).has(pos),
        ensures
            *r == old(self).at_pos(pos),
            final(self).cells() == old(self).cells().update(
                pos.y as int,
                old(self).cells()[pos.y as int].update(pos.x as int, *final(r)),
            ),
    {
        &mut self.gmap[pos.y as usize][pos.x as usize]
    }

    /// Replaces the entry of the cell `pos` and leaves every other entry.
    pub fn set(&mut self, pos: Point, value: T)
        requires
            old(self).has(pos),
        ensures
            final(self).gmap.len() == old(self).gmap.len(),
            forall|y: int|
                0 <= y < old(self).gmap.len() ==> (#[trigger] final(self).gmap[y]).len() == old(
                    self,
                ).gmap[y].len(),
            forall|q: Point|
                old(self).has(q) ==> #[trigger] final(self).at_pos(q) == (if q == pos {
                    value
                } else {
                    old(self).at_pos(q)
                }),
    {
        let ghost before = self.cells();
        let slot = self.get_mut(pos);
        *slot = value;
        proof {
            let after = self.cells();
            assert(after == before.update(
                pos.y as int,
                before[pos.y as int].update(pos.x as int, value),
            ));
            assert(after.len() == self.gmap.len());
            assert(before.len() == old(self).gmap.len());
            assert(after.len() == before.len());
            assert forall|y: int| 0 <= y < before.len() implies (#[trigger] self.gmap[y]).len()
                == old(self).gmap[y].len() by {
                assert(after[y] == self.gmap[y]@);
                assert(before[y] == old(self).gmap[y]@);
                assert(after[y].len() == before[y].len());
            }
            assert forall|q: Point| old(self).has(q) implies #[trigger] self.at_pos(q) == (if q
                == pos {
                value
            } else {
                old(self).at_pos(q)
            }) by {
                assert(after[q.y as int] == self.gmap[q.y as int]@);
                assert(before[q.y as int] == old(self).gmap[q.y as int]@);
                assert(self.at_pos(q) == after[q.y as int][q.x as int]);
                assert(old(self).at_pos(q) == before[q.y as int][q.x as int]);
            }
        }
    }
}

impl<T: Copy> GMap<T> {
    /// A table of `height` rows and `width` columns with `value` everywhere.
    pub fn filled(width: usize, height: usize, value: T) -> (m: GMap<T>)
        ensures
            m.wf(width as int, height as int),
            forall|x: int, y: int|
                0 <= x < width && 0 <= y < height ==> #[trigger] m.at(x, y) == value,
    {
        let mut rows: Vec<Vec<T>> = Vec::new();
        let mut y: usize = 0;
        while y < height
            invariant
                y <= height,
                rows.len() == y,
                forall|r: int| 0 <= r < y ==> (#[trigger] rows[r]).len() == width,
                forall|r: int, c: int| 0 <= r < y && 0 <= c < width ==> (#[trigger] rows[r][c]) == value,
            decreases height - y,
        {
            let mut row: Vec<T> = Vec::new();
            let mut x: usize = 0;
            while x < width
                invariant
                    x <= width,
                    row.len() == x,
                    forall|c: int| 0 <= c < x ==> (#[trigger] row[c]) == value,
                decreases width - x,
            {
                row.push(value);
                x += 1;
            }
            rows.push(row);
            y += 1;
        }
        GMap { gmap: rows }
    }
}

} // verus!
