//! The board that the game plays on.

use vstd::prelude::*;
use vstd::std_specs::cmp::PartialEqSpecImpl;
use crate::cell::{Cell, Coord, Mark};
use crate::grid::{
    Grid, digest, in_bounds, is_board, next_region, occupied, queen_count, row_count, row_digest,
    rows_count, rows_digest, with_mark, with_region, lemma_count_with_mark, lemma_row_count_bound,
    lemma_rows_count_bound,
};
use crate::regions::{is_partitioned, lemma_mark_keeps_partition};
use crate::rules::{
    after_mark, after_place, after_unmark, after_unplace, conflicts, is_move, placeable,
};

verus! {

/// The lists are the inverse of the cells' region ids: list `r` holds, once
/// each, exactly the cells whose region is `r`.
pub open spec fn index_ok(g: Grid, lists: Seq<Seq<Coord>>) -> bool {
    &&& lists.len() == g.len()
    &&& forall|r: int, i: int|
        #![trigger lists[r][i]]
        0 <= r < lists.len() && 0 <= i < lists[r].len() ==> {
            let p = lists[r][i];
            in_bounds(g, p.x as int, p.y as int) && g[p.y as int][p.x as int].region == r
        }
    &&& forall|r: int, i: int, j: int|
        #![trigger lists[r][i], lists[r][j]]
        0 <= r < lists.len() && 0 <= i < j < lists[r].len() ==> lists[r][i] != lists[r][j]
    &&& forall|x: int, y: int|
        #![trigger g[y][x]]
        in_bounds(g, x, y) && g[y][x].region < g.len() ==> listed(lists[g[y][x].region as int], x, y)
}

/// The list holds the cell `(x, y)`.
pub open spec fn listed(list: Seq<Coord>, x: int, y: int) -> bool {
    exists|i: int| 0 <= i < list.len() && #[trigger] list[i] == (Coord { x: x as usize, y: y as usize })
}

/// Rows of cells as a grid.
pub open spec fn grid_of(cells: Vec<Vec<Cell>>) -> Grid {
    Seq::new(cells@.len(), |y: int| cells@[y]@)
}

/// Lists of cells as plain values.
pub open spec fn lists_of(regions: Vec<Vec<Coord>>) -> Seq<Seq<Coord>> {
    Seq::new(regions@.len(), |r: int| regions@[r]@)
}

/// An N×N board. Beside the cells it keeps, for every region, the list of the
/// cells that belong to it, so that a region can be walked without walking the board.
#[derive(Debug)]
pub struct State {
    cells: Vec<Vec<Cell>>,
    regions: Vec<Vec<Coord>>,
}

impl View for State {
    type V = Grid;

    closed spec fn view(&self) -> Grid {
        grid_of(self.cells)
    }
}

impl State {
    /// The region lists as plain values.
    pub closed spec fn lists(&self) -> Seq<Seq<Coord>> {
        lists_of(self.regions)
    }

    /// The region lists are the inverse of the cells' region ids.
    pub open spec fn indexed(&self) -> bool {
        index_ok(self@, self.lists())
    }

    /// The value is sound: a square board whose cells can be counted in a `usize`,
    /// with region lists that agree with the cells.
    pub open spec fn wf(&self) -> bool {
        &&& is_board(self@)
        &&& self@.len() * self@.len() <= usize::MAX
        &&& self.indexed()
    }

    /// A board made of its cells and of the lists of the cells of each region.
    pub(crate) fn from_parts(cells: Vec<Vec<Cell>>, regions: Vec<Vec<Coord>>) -> (board: State)
        requires
            is_board(grid_of(cells)),
            grid_of(cells).len() * grid_of(cells).len() <= usize::MAX,
            index_ok(grid_of(cells), lists_of(regions)),
        ensures
            board.wf(),
            board@ == grid_of(cells),
    {
        State { cells, regions }
    }

    /// The number of rows, which is the number of columns and of region ids.
    pub fn size(&self) -> (n: usize)
        ensures
            n == self@.len(),
    {
        self.cells.len()
    }

    /// The cell at `(x, y)`.
    pub fn cell(&self, x: usize, y: usize) -> (c: Cell)
        requires
            self.wf(),
            in_bounds(self@, x as int, y as int),
        ensures
            c == self@[y as int][x as int],
    {
        self.cells[y][x]
    }

    /// Whether a queen stands on `(x, y)`.
    pub fn has_queen(&self, x: usize, y: usize) -> (r: bool)
        requires
            self.wf(),
            in_bounds(self@, x as int, y as int),
        ensures
            r == (self@[y as int][x as int].mark == Mark::Occupied),
    {
        self.cells[y][x].mark == Mark::Occupied
    }

    /// Whether the player has flagged `(x, y)`.
    pub fn is_marked(&self, x: usize, y: usize) -> (r: bool)
        requires
            self.wf(),
            in_bounds(self@, x as int, y as int),
        ensures
            r == (self@[y as int][x as int].mark == Mark::Flagged),
    {
        self.cells[y][x].mark == Mark::Flagged
    }

    /// The region that `(x, y)` belongs to.
    pub fn get_cell_group(&self, x: usize, y: usize) -> (r: usize)
        requires
            self.wf(),
            in_bounds(self@, x as int, y as int),
        ensures
            r == self@[y as int][x as int].region,
            r < self@.len(),
    {
        self.cells[y][x].region
    }

    /// The number of queens on the board.
    pub fn count_queens(&self) -> (count: usize)
        requires
            self.wf(),
        ensures
            count == queen_count(self@),
    {
        let n: usize = self.cells.len();
        let mut count: usize = 0;
        let mut y: usize = 0;
        while y < n
            invariant
                self.wf(),
                n == self@.len(),
                y <= n,
                count == rows_count(self@, y as int),
            decreases n - y,
        {
            let mut x: usize = 0;
            let ghost base: usize = count;
            while x < n
                invariant
                    self.wf(),
                    n == self@.len(),
                    y < n,
                    x <= n,
                    base == rows_count(self@, y as int),
                    count == base + row_count(self@[y as int], x as int),
                decreases n - x,
            {
                proof {
                    lemma_rows_count_bound(self@, y as int);
                    lemma_row_count_bound(self@[y as int], x as int);
                    assert(y * n + n <= n * n) by (nonlinear_arith)
                        requires
                            y < n,
                    ;
                }
                if self.cells[y][x].mark == Mark::Occupied {
                    count = count + 1;
                }
                x = x + 1;
            }
            y = y + 1;
        }
        count
    }

    /// The digest of the board's marks, to sort boards by before comparing them.
    pub fn digest(&self) -> (h: u64)
        ensures
            h == digest(self@),
    {
        let mut h: u64 = 0xCBF2_9CE4_8422_2325u64;
        let mut y: usize = 0;
        while y < self.cells.len()
            invariant
                y <= self.cells@.len(),
                h == rows_digest(self@, y as int),
            decreases self.cells@.len() - y,
        {
            let row = &self.cells[y];
            let mut x: usize = 0;
            let ghost base: u64 = h;
            while x < row.len()
                invariant
                    y < self.cells@.len(),
                    row@ == self@[y as int],
                    x <= row@.len(),
                    h == row_digest(row@, x as int, base),
                decreases row@.len() - x,
            {
                let code: u64 = match row[x].mark {
                    Mark::Blank => 0,
                    Mark::Flagged => 1,
                    Mark::Occupied => 2,
                };
                h = h.wrapping_mul(0x0000_0100_0000_01B3u64).wrapping_add(code);
                x = x + 1;
            }
            y = y + 1;
        }
        h
    }

    /// Whether the rules allow a queen on `(x, y)`: no queen elsewhere in its
    /// region, none on a touching cell, none elsewhere in its row or its column.
    pub fn can_place(&self, x: usize, y: usize) -> (ok: bool)
        requires
            self.wf(),
            in_bounds(self@, x as int, y as int),
        ensures
            ok == placeable(self@, x as int, y as int),
    {
        let n: usize = self.cells.len();
        let r: usize = self.cells[y][x].region;
        let members = &self.regions[r];
        let mut i: usize = 0;
        while i < members.len()
            invariant
                self.wf(),
                in_bounds(self@, x as int, y as int),
                r == self@[y as int][x as int].region,
                members == &self.regions@[r as int],
                i <= members@.len(),
                forall|j: int|
                    0 <= j < i && members@[j] != (Coord { x, y }) ==> !occupied(
                        self@,
                        (#[trigger] members@[j]).x as int,
                        members@[j].y as int,
                    ),
            decreases members@.len() - i,
        {
            let u: usize = members[i].x;
            let v: usize = members[i].y;
            assert(members@[i as int] == self.lists()[r as int][i as int]);
            if !(u == x && v == y) && self.cells[v][u].mark == Mark::Occupied {
                assert(occupied(self@, u as int, v as int));
                assert(conflicts(self@, x as int, y as int, u as int, v as int));
                assert(self@[v as int][u as int].mark == Mark::Occupied);
                return false;
            }
            i = i + 1;
        }
        let mut u: usize = 0;
        while u < n
            invariant
                self.wf(),
                n == self@.len(),
                in_bounds(self@, x as int, y as int),
                u <= n,
                forall|j: int| 0 <= j < u && j != x ==> !occupied(self@, j, y as int),
                forall|j: int| 0 <= j < u && j != y ==> !occupied(self@, x as int, j),
            decreases n - u,
        {
            if u != x && self.cells[y][u].mark == Mark::Occupied {
                assert(occupied(self@, u as int, y as int));
                assert(conflicts(self@, x as int, y as int, u as int, y as int));
                assert(self@[y as int][u as int].mark == Mark::Occupied);
                return false;
            }
            if u != y && self.cells[u][x].mark == Mark::Occupied {
                assert(occupied(self@, x as int, u as int));
                assert(conflicts(self@, x as int, y as int, x as int, u as int));
                assert(self@[u as int][x as int].mark == Mark::Occupied);
                return false;
            }
            u = u + 1;
        }
        let x_lo: usize = if x > 0 { x - 1 } else { 0 };
        let y_lo: usize = if y > 0 { y - 1 } else { 0 };
        let x_hi: usize = if x + 1 < n { x + 2 } else { n };
        let y_hi: usize = if y + 1 < n { y + 2 } else { n };
        let mut v: usize = y_lo;
        while v < y_hi
            invariant
                self.wf(),
                n == self@.len(),
                in_bounds(self@, x as int, y as int),
                x_lo <= x < x_hi <= n,
                y_lo <= v <= y_hi <= n,
                x <= x_lo + 1 && x_hi <= x + 2 && y <= y_lo + 1 && y_hi <= y + 2,
                forall|a: int, b: int|
                    x_lo <= a < x_hi && y_lo <= b < v && !(a == x && b == y) ==> !occupied(self@, a, b),
            decreases y_hi - v,
        {
            let mut u: usize = x_lo;
            while u < x_hi
                invariant
                    self.wf(),
                    n == self@.len(),
                    in_bounds(self@, x as int, y as int),
                    x_lo <= u <= x_hi <= n,
                    y_lo <= v < y_hi <= n,
                    x <= x_lo + 1 && x_hi <= x + 2 && y <= y_lo + 1 && y_hi <= y + 2,
                    forall|a: int, b: int|
                        x_lo <= a < x_hi && y_lo <= b < v && !(a == x && b == y) ==> !occupied(
                            self@,
                            a,
                            b,
                        ),
                    forall|a: int| x_lo <= a < u && !(a == x && v == y) ==> !occupied(self@, a, v as int),
                decreases x_hi - u,
            {
                if !(u == x && v == y) && self.cells[v][u].mark == Mark::Occupied {
                    assert(occupied(self@, u as int, v as int));
                    assert(conflicts(self@, x as int, y as int, u as int, v as int));
                    assert(self@[v as int][u as int].mark == Mark::Occupied);
                    return false;
                }
                u = u + 1;
            }
            v = v + 1;
        }
        assert forall|a: int, b: int|
            #![trigger self@[b][a]]
            occupied(self@, a, b) && !(a == x && b == y) implies !conflicts(
            self@,
            x as int,
            y as int,
            a,
            b,
        ) by {
            if self@[b][a].region == r {
                assert(listed(self.lists()[r as int], a, b));
                let i = choose|i: int|
                    0 <= i < members@.len() && #[trigger] members@[i] == (Coord {
                        x: a as usize,
                        y: b as usize,
                    });
                assert(members@[i] == Coord { x: a as usize, y: b as usize });
            }
        }
        true
    }

    /// Puts a queen on `(x, y)` if the cell holds none and the rules allow one
    /// there, and says whether it did. A flag on the cell gives way to the queen.
    pub fn place_queen(&mut self, x: usize, y: usize) -> (placed: bool)
        requires
            old(self).wf(),
            in_bounds(old(self)@, x as int, y as int),
        ensures
            final(self).wf(),
            placed == is_move(old(self)@, x as int, y as int),
            final(self)@ == after_place(old(self)@, x as int, y as int),
            is_partitioned(old(self)@) ==> is_partitioned(final(self)@),
    {
        if !self.has_queen(x, y) && self.can_place(x, y) {
            self.set_mark(x, y, Mark::Occupied);
            true
        } else {
            false
        }
    }

    /// Takes the queen off `(x, y)` if one stands there, and says whether it did.
    pub fn unplace_queen(&mut self, x: usize, y: usize) -> (removed: bool)
        requires
            old(self).wf(),
            in_bounds(old(self)@, x as int, y as int),
        ensures
            final(self).wf(),
            removed == occupied(old(self)@, x as int, y as int),
            final(self)@ == after_unplace(old(self)@, x as int, y as int),
            is_partitioned(old(self)@) ==> is_partitioned(final(self)@),
    {
        if self.has_queen(x, y) {
            self.set_mark(x, y, Mark::Blank);
            true
        } else {
            false
        }
    }

    /// Flags `(x, y)` if it is blank, and says whether it did.
    pub fn mark(&mut self, x: usize, y: usize) -> (flagged: bool)
        requires
            old(self).wf(),
            in_bounds(old(self)@, x as int, y as int),
        ensures
            final(self).wf(),
            flagged == (old(self)@[y as int][x as int].mark == Mark::Blank),
            final(self)@ == after_mark(old(self)@, x as int, y as int),
            is_partitioned(old(self)@) ==> is_partitioned(final(self)@),
    {
        if self.cell(x, y).mark == Mark::Blank {
            self.set_mark(x, y, Mark::Flagged);
            true
        } else {
            false
        }
    }

    /// Takes the flag off `(x, y)` if it has one, and says whether it did.
    pub fn unmark(&mut self, x: usize, y: usize) -> (cleared: bool)
        requires
            old(self).wf(),
            in_bounds(old(self)@, x as int, y as int),
        ensures
            final(self).wf(),
            cleared == (old(self)@[y as int][x as int].mark == Mark::Flagged),
            final(self)@ == after_unmark(old(self)@, x as int, y as int),
            is_partitioned(old(self)@) ==> is_partitioned(final(self)@),
    {
        if self.is_marked(x, y) {
            self.set_mark(x, y, Mark::Blank);
            true
        } else {
            false
        }
    }

    /// Moves `(x, y)` into the next region: the one with the next id, or the
    /// first after the last. The marks stay as they are.
    pub fn cycle_square_group(&mut self, x: usize, y: usize)
        requires
            old(self).wf(),
            in_bounds(old(self)@, x as int, y as int),
        ensures
            final(self).wf(),
            final(self)@ == with_region(
                old(self)@,
                x as int,
                y as int,
                next_region(old(self)@[y as int][x as int].region, old(self)@.len()),
            ),
    {
        let n: usize = self.cells.len();
        assert(self@[y as int].len() == self@.len());
        let c = self.cells[y][x];
        let r: usize = c.region;
        let next: usize = if r + 1 < n { r + 1 } else { 0 };
        let here = Coord { x, y };
        if next == r {
            assert(self@ =~~= with_region(self@, x as int, y as int, next));
            return ;
        }
        assert(listed(self.lists()[r as int], x as int, y as int));
        let ghost at: int = choose|i: int|
            0 <= i < self.lists()[r as int].len() && #[trigger] self.lists()[r as int][i] == here;
        let len: usize = self.regions[r].len();
        let mut i: usize = 0;
        while self.regions[r][i] != here
            invariant
                r < self.regions@.len(),
                0 <= i <= at < self.regions@[r as int]@.len() == len,
                self.regions@[r as int]@[at] == here,
            decreases at - i,
        {
            i = i + 1;
        }
        assert(i == at) by {
            if i < at {
                assert(self.lists()[r as int][i as int] != self.lists()[r as int][at]);
            }
        }
        self.regions[r].remove(i);
        self.regions[next].push(here);
        self.cells[y][x] = Cell { region: next, mark: c.mark };
        proof {
            let g = old(self)@;
            let h = with_region(g, x as int, y as int, next);
            assert(self@ =~~= h);
            let before = old(self).lists();
            let after = self.lists();
            assert(after.len() == before.len());
            assert(after[r as int] == before[r as int].remove(at));
            assert(after[next as int] == before[next as int].push(here));
            assert(forall|q: int| 0 <= q < after.len() && q != r && q != next ==> after[q] == before[q]);
            assert forall|q: int, j: int|
                #![trigger after[q][j]]
                0 <= q < after.len() && 0 <= j < after[q].len() implies {
                let p = after[q][j];
                in_bounds(h, p.x as int, p.y as int) && h[p.y as int][p.x as int].region == q
            } by {
                let p = after[q][j];
                if q == r {
                    let k = if j < at { j } else { j + 1 };
                    assert(p == before[r as int][k]);
                    assert(before[r as int][k] != before[r as int][at]);
                } else if q == next {
                    if j < before[next as int].len() {
                        assert(p == before[next as int][j]);
                    }
                } else {
                    assert(p == before[q][j]);
                }
            }
            assert forall|q: int, j: int, k: int|
                #![trigger after[q][j], after[q][k]]
                0 <= q < after.len() && 0 <= j < k < after[q].len() implies after[q][j] != after[q][k] by {
                if q == r {
                    let j0 = if j < at { j } else { j + 1 };
                    let k0 = if k < at { k } else { k + 1 };
                    assert(before[r as int][j0] != before[r as int][k0]);
                } else if q == next {
                    if k < before[next as int].len() {
                        assert(before[next as int][j] != before[next as int][k]);
                    } else {
                        assert(after[q][j] == before[next as int][j]);
                    }
                } else {
                    assert(before[q][j] != before[q][k]);
                }
            }
            assert forall|a: int, b: int|
                #![trigger h[b][a]]
                in_bounds(h, a, b) && h[b][a].region < h.len() implies listed(
                after[h[b][a].region as int],
                a,
                b,
            ) by {
                if a == x && b == y {
                    let j = before[next as int].len() as int;
                    assert(after[next as int][j] == here);
                } else {
                    let q = g[b][a].region as int;
                    assert(listed(before[q], a, b));
                    let j = choose|j: int|
                        0 <= j < before[q].len() && #[trigger] before[q][j] == (Coord {
                            x: a as usize,
                            y: b as usize,
                        });
                    if q == r {
                        let j1 = if j < at { j } else { j - 1 };
                        assert(after[q][j1] == before[q][j]);
                    } else if q == next {
                        assert(after[q][j] == before[q][j]);
                    } else {
                        assert(after[q][j] == before[q][j]);
                    }
                }
            }
        }
    }

    /// Replaces the mark of `(x, y)`.
    pub(crate) fn set_mark(&mut self, x: usize, y: usize, m: Mark)
        requires
            old(self).wf(),
            in_bounds(old(self)@, x as int, y as int),
        ensures
            final(self).wf(),
            final(self)@ == with_mark(old(self)@, x as int, y as int, m),
            is_partitioned(old(self)@) ==> is_partitioned(final(self)@),
    {
        assert(self@[y as int].len() == self@.len());
        let region: usize = self.cells[y][x].region;
        self.cells[y][x] = Cell { region, mark: m };
        proof {
            lemma_count_with_mark(old(self)@, x as int, y as int, m);
            assert(self@ =~~= with_mark(old(self)@, x as int, y as int, m));
            if is_partitioned(old(self)@) {
                lemma_mark_keeps_partition(old(self)@, x as int, y as int, m);
            }
            assert(self.lists() == old(self).lists());
        }
    }
}

impl Clone for State {
    /// A copy with the same cells and the same region lists.
    fn clone(&self) -> (copy: State)
        ensures
            copy@ == self@,
            self.wf() ==> copy.wf(),
    {
        let copy = State { cells: self.cells.clone(), regions: self.regions.clone() };
        proof {
            assert(copy.cells@.len() == self.cells@.len());
            assert forall|y: int| 0 <= y < self.cells@.len() implies copy.cells@[y]@ == self.cells@[y]@ by {
                assert(cloned::<Vec<Cell>>(self.cells@[y], copy.cells@[y]));
            }
            assert(copy@ =~~= self@);
            assert forall|r: int| 0 <= r < self.regions@.len() implies copy.regions@[r]@ == self.regions@[r]@ by {
                assert(cloned::<Vec<Coord>>(self.regions@[r], copy.regions@[r]));
            }
            assert(copy.lists() =~~= self.lists());
        }
        copy
    }
}

impl PartialEq for State {
    /// Two boards are equal when their cells are: region by region, mark by mark.
    fn eq(&self, other: &State) -> (same: bool) {
        let n: usize = self.cells.len();
        if other.cells.len() != n {
            assert(self@.len() != other@.len());
            return false;
        }
        let mut y: usize = 0;
        while y < n
            invariant
                n == self.cells@.len(),
                n == other.cells@.len(),
                y <= n,
                forall|j: int| 0 <= j < y ==> self.cells@[j]@ == other.cells@[j]@,
            decreases n - y,
        {
            let a = &self.cells[y];
            let b = &other.cells[y];
            if a.len() != b.len() {
                assert(self@[y as int].len() != other@[y as int].len());
                return false;
            }
            let mut x: usize = 0;
            while x < a.len()
                invariant
                    y < n,
                    n == self.cells@.len(),
                    n == other.cells@.len(),
                    a == &self.cells@[y as int],
                    b == &other.cells@[y as int],
                    a@.len() == b@.len(),
                    x <= a@.len(),
                    forall|i: int| 0 <= i < x ==> a@[i] == b@[i],
                decreases a@.len() - x,
            {
                if a[x] != b[x] {
                    assert(self@[y as int][x as int] != other@[y as int][x as int]);
                    return false;
                }
                x = x + 1;
            }
            assert(a@ =~= b@);
            y = y + 1;
        }
        assert(self@ =~~= other@);
        true
    }
}

impl Eq for State {

}

impl PartialEqSpecImpl for State {
    open spec fn obeys_eq_spec() -> bool {
        true
    }

    open spec fn eq_spec(&self, other: &State) -> bool {
        self@ == other@
    }
}

} // verus!
