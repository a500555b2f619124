//! The growth of regions from seeds as a state machine over plain values: what
//! the board is after each draw.

use vstd::prelude::*;
use crate::cell::{Cell, Coord, Mark};
use crate::grid::{Grid, with_region};
use crate::rng::{advanced, advanced_by, drawn};

verus! {

/// A board while its regions grow.
pub struct Growth {
    /// The cells. A cell that no region has taken has the board's size for its region id.
    pub cells: Grid,
    /// The cells of each region, in the order in which the region took them.
    pub lists: Seq<Seq<Coord>>,
    /// The cells that no region has taken, in an order of their own.
    pub free: Seq<Coord>,
}

/// The first `k` cells of row `y`, from left to right.
pub open spec fn row_coords(y: usize, k: int) -> Seq<Coord>
    decreases k,
{
    if k <= 0 {
        Seq::empty()
    } else {
        row_coords(y, k - 1).push(Coord { x: (k - 1) as usize, y })
    }
}

/// The cells of the first `k` rows of a board of size `n`, row by row.
pub open spec fn all_coords(n: int, k: int) -> Seq<Coord>
    decreases k,
{
    if k <= 0 {
        Seq::empty()
    } else {
        all_coords(n, k - 1) + row_coords((k - 1) as usize, n)
    }
}

/// The blank board of size `n` before any region has a cell.
pub open spec fn unclaimed(n: nat) -> Growth {
    Growth {
        cells: Seq::new(
            n,
            |y: int| Seq::new(n, |x: int| Cell { region: n as usize, mark: Mark::Blank }),
        ),
        lists: Seq::new(n, |r: int| Seq::empty()),
        free: all_coords(n as int, n as int),
    }
}

/// The board after region `r` took the free cell at `k`: the last free cell
/// takes the place of the one that left.
pub open spec fn claimed(s: Growth, r: int, k: int) -> Growth {
    let c = s.free[k];
    Growth {
        cells: with_region(s.cells, c.x as int, c.y as int, r as usize),
        lists: s.lists.update(r, s.lists[r].push(c)),
        free: s.free.update(k, s.free.last()).drop_last(),
    }
}

/// The board after the first `r` regions were seeded by the draws that
/// follow the state `seed`: each draw picks one of the free cells.
pub open spec fn seeded(n: nat, seed: u64, r: nat) -> Growth
    decreases r,
{
    if r == 0 {
        unclaimed(n)
    } else {
        let s = seeded(n, seed, (r - 1) as nat);
        claimed(s, r - 1, (drawn(advanced_by(seed, r)) % (s.free.len() as u64)) as int)
    }
}

/// `front` with the cell `c` added, if `c` is free and not in it yet.
pub open spec fn noted(g: Grid, front: Seq<Coord>, c: Coord) -> Seq<Coord> {
    if g[c.y as int][c.x as int].region >= g.len() && !front.contains(c) {
        front.push(c)
    } else {
        front
    }
}

/// `front` with the free cells around `m` added that are not in it yet: the
/// one to the right, to the left, below and above, in this order.
pub open spec fn noted_around(g: Grid, front: Seq<Coord>, m: Coord) -> Seq<Coord> {
    let a = if m.x + 1 < g.len() {
        noted(g, front, Coord { x: (m.x + 1) as usize, y: m.y })
    } else {
        front
    };
    let b = if m.x > 0 {
        noted(g, a, Coord { x: (m.x - 1) as usize, y: m.y })
    } else {
        a
    };
    let c = if m.y + 1 < g.len() {
        noted(g, b, Coord { x: m.x, y: (m.y + 1) as usize })
    } else {
        b
    };
    if m.y > 0 {
        noted(g, c, Coord { x: m.x, y: (m.y - 1) as usize })
    } else {
        c
    }
}

/// The free cells at the edge of the first `j` cells of a list, once each, in
/// the order in which a walk along the list meets them.
pub open spec fn frontier_of(g: Grid, list: Seq<Coord>, j: int) -> Seq<Coord>
    decreases j,
{
    if j <= 0 {
        Seq::empty()
    } else {
        noted_around(g, frontier_of(g, list, j - 1), list[j - 1])
    }
}

/// The free cells at the edge of region `r`.
pub open spec fn front_of(s: Growth, r: int) -> Seq<Coord> {
    frontier_of(s.cells, s.lists[r], s.lists[r].len() as int)
}

/// Those of the first `r` regions that have a free cell at their edge, in rising order.
pub open spec fn able_of(s: Growth, r: int) -> Seq<usize>
    decreases r,
{
    if r <= 0 {
        Seq::empty()
    } else if front_of(s, r - 1).len() > 0 {
        able_of(s, r - 1).push((r - 1) as usize)
    } else {
        able_of(s, r - 1)
    }
}

/// The region that grows next: the first draw after the state `seed` picks
/// it among those that have a free cell at their edge.
pub open spec fn next_region_of(s: Growth, seed: u64) -> usize {
    let able = able_of(s, s.lists.len() as int);
    able[(drawn(advanced(seed)) % (able.len() as u64)) as int]
}

/// The cell that the growing region takes: the second draw after the state
/// `seed` picks it among the free cells at the region's edge.
pub open spec fn next_cell_of(s: Growth, seed: u64) -> Coord {
    let front = front_of(s, next_region_of(s, seed) as int);
    front[(drawn(advanced(advanced(seed))) % (front.len() as u64)) as int]
}

/// The board after one region has grown by one cell, by the two draws that
/// follow the state `seed`.
pub open spec fn grown_once(s: Growth, seed: u64) -> Growth {
    claimed(s, next_region_of(s, seed) as int, s.free.index_of(next_cell_of(s, seed)))
}

/// The board after `k` cells were taken by growth, by the draws that follow the state `seed`.
pub open spec fn grown_by(s: Growth, seed: u64, k: nat) -> Growth
    decreases k,
{
    if k == 0 {
        s
    } else {
        grown_once(grown_by(s, seed, (k - 1) as nat), advanced_by(seed, (2 * (k - 1)) as nat))
    }
}

/// The number of draws that it takes to split a board of size `n`: one for
/// each seed, and two for each of the other cells.
pub open spec fn draws(n: nat) -> nat {
    (2 * n * n - n) as nat
}

/// The regions that a blank board of size `n` is split into by the draws that
/// follow the state `seed`: a draw for the seed of each region, and then, for each
/// cell that is left, a draw for the region that grows and a draw for the cell that
/// it takes.
pub open spec fn partition_of(n: nat, seed: u64) -> Grid {
    grown_by(seeded(n, seed, n), advanced_by(seed, n), (n * n - n) as nat).cells
}

} // verus!
