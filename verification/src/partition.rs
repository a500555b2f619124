//! Splitting a blank board into regions by random growth from seeds.

use vstd::prelude::*;
use crate::cell::{Cell, Coord, Mark};
use crate::grid::{Grid, in_bounds, is_blank, is_board, with_region};
use crate::growth::{
    Growth, able_of, all_coords, claimed, draws, front_of, frontier_of, grown_by, grown_once,
    noted, partition_of, row_coords, seeded, unclaimed,
};
use crate::regions::{
    Spot, adjacent, connected, in_region, inhabited, is_partitioned, joined, lemma_joined_near,
    lemma_joined_symmetric, lemma_joined_transitive,
};
use crate::rng::{Rng, advanced, advanced_by, lemma_advanced_on};
use crate::state::{State, grid_of, index_ok, listed, lists_of};

verus! {

/// The place of a cell as the contracts see it.
pub open spec fn spot(c: Coord) -> Spot {
    Spot { x: c.x as int, y: c.y as int }
}

/// The cell at `i` of the list shares an edge with one that stands before it.
pub open spec fn anchored(list: Seq<Coord>, i: int) -> bool {
    exists|j: int| 0 <= j < i && adjacent(spot(list[i]), spot(#[trigger] list[j]))
}

/// Each list is in an order of growth: every cell but the first shares an edge
/// with one that stands before it.
pub open spec fn grown(lists: Seq<Seq<Coord>>) -> bool {
    forall|r: int, i: int|
        0 <= r < lists.len() && 1 <= i < lists[r].len() ==> #[trigger] anchored(lists[r], i)
}

/// No list is empty.
pub open spec fn all_seeded(lists: Seq<Seq<Coord>>) -> bool {
    forall|r: int| 0 <= r < lists.len() ==> (#[trigger] lists[r]).len() > 0
}

/// `p` is a cell that no region has taken yet: its region id is no id.
pub open spec fn is_open(g: Grid, p: Spot) -> bool {
    in_bounds(g, p.x, p.y) && g[p.y][p.x].region >= g.len()
}

/// `p` is a cell of some region.
pub open spec fn is_taken(g: Grid, p: Spot) -> bool {
    in_bounds(g, p.x, p.y) && g[p.y][p.x].region < g.len()
}

/// An open cell `p` and a taken cell `q` share an edge.
pub open spec fn is_border(g: Grid, p: Spot, q: Spot) -> bool {
    is_open(g, p) && is_taken(g, q) && adjacent(p, q)
}

/// `p` is an open cell that shares an edge with one of the first `upto` cells of the list.
pub open spec fn borders(g: Grid, list: Seq<Coord>, upto: int, p: Spot) -> bool {
    is_open(g, p) && exists|j: int| 0 <= j < upto && j < list.len() && adjacent(p, spot(#[trigger] list[j]))
}

/// `front` holds, once each, exactly the open cells that share an edge with
/// one of the first `upto` cells of the list.
pub open spec fn is_front(g: Grid, list: Seq<Coord>, upto: int, front: Seq<Coord>) -> bool {
    &&& forall|k: int| 0 <= k < front.len() ==> borders(g, list, upto, spot(#[trigger] front[k]))
    &&& forall|k: int, m: int| 0 <= k < m < front.len() ==> #[trigger] front[k] != #[trigger] front[m]
    &&& forall|p: Spot| #[trigger] borders(g, list, upto, p) ==> listed(front, p.x, p.y)
}

/// The distance between two places, in steps along the edges.
pub open spec fn steps(p: Spot, q: Spot) -> int {
    (if p.x <= q.x { q.x - p.x } else { p.x - q.x }) + (if p.y <= q.y { q.y - p.y } else { p.y - q.y })
}

/// Where a board has an open cell and a taken one, somewhere an open cell
/// shares an edge with a taken one.
pub proof fn lemma_border(g: Grid, u: Spot, a: Spot)
    requires
        is_open(g, u),
        is_taken(g, a),
    ensures
        exists|p: Spot, q: Spot| #[trigger] is_border(g, p, q),
    decreases steps(u, a),
{
    let v = if u.x < a.x {
        Spot { x: u.x + 1, y: u.y }
    } else if u.x > a.x {
        Spot { x: u.x - 1, y: u.y }
    } else if u.y < a.y {
        Spot { x: u.x, y: u.y + 1 }
    } else {
        Spot { x: u.x, y: u.y - 1 }
    };
    assert(in_bounds(g, v.x, v.y));
    assert(adjacent(u, v));
    if is_taken(g, v) {
        assert(is_border(g, u, v));
    } else {
        lemma_border(g, v, a);
    }
}

/// In a list in an order of growth, a walk through the region leads from each
/// cell to the first.
pub proof fn lemma_member_joined(g: Grid, lists: Seq<Seq<Coord>>, r: int, i: int)
    requires
        index_ok(g, lists),
        grown(lists),
        0 <= r < lists.len(),
        0 <= i < lists[r].len(),
    ensures
        joined(g, r, spot(lists[r][i]), spot(lists[r][0])),
    decreases i,
{
    let p = spot(lists[r][i]);
    assert(in_region(g, r, p));
    if i == 0 {
        lemma_joined_near(g, r, p, p);
    } else {
        assert(anchored(lists[r], i));
        let j = choose|j: int| 0 <= j < i && adjacent(spot(lists[r][i]), spot(#[trigger] lists[r][j]));
        let q = spot(lists[r][j]);
        assert(in_region(g, r, q));
        lemma_joined_near(g, r, p, q);
        lemma_member_joined(g, lists, r, j);
        lemma_joined_transitive(g, r, p, q, spot(lists[r][0]));
    }
}

/// A board whose region lists are all seeded and in an order of growth is partitioned.
pub proof fn lemma_grown_partition(g: Grid, lists: Seq<Seq<Coord>>)
    requires
        is_board(g),
        g.len() <= usize::MAX,
        index_ok(g, lists),
        grown(lists),
        all_seeded(lists),
    ensures
        is_partitioned(g),
{
    assert forall|r: int| 0 <= r < g.len() implies #[trigger] inhabited(g, r) by {
        assert(lists[r].len() > 0);
        assert(in_region(g, r, spot(lists[r][0])));
    }
    assert forall|r: int| 0 <= r < g.len() implies #[trigger] connected(g, r) by {
        assert forall|p: Spot, q: Spot| in_region(g, r, p) && in_region(g, r, q) implies #[trigger] joined(
            g,
            r,
            p,
            q,
        ) by {
            let root = spot(lists[r][0]);
            assert(g[p.y][p.x].region == r);
            assert(listed(lists[r], p.x, p.y));
            let i = choose|i: int|
                0 <= i < lists[r].len() && #[trigger] lists[r][i] == (Coord {
                    x: p.x as usize,
                    y: p.y as usize,
                });
            assert(spot(lists[r][i]) == p);
            assert(g[q.y][q.x].region == r);
            assert(listed(lists[r], q.x, q.y));
            let k = choose|k: int|
                0 <= k < lists[r].len() && #[trigger] lists[r][k] == (Coord {
                    x: q.x as usize,
                    y: q.y as usize,
                });
            assert(spot(lists[r][k]) == q);
            lemma_member_joined(g, lists, r, i);
            lemma_member_joined(g, lists, r, k);
            lemma_joined_symmetric(g, r, q, root);
            lemma_joined_transitive(g, r, p, root, q);
        }
    }
}

/// A board while its regions grow: the cells, of which some belong to no
/// region yet, the cells of each region in the order in which it took them,
/// and the cells still to be taken.
struct Layout {
    cells: Vec<Vec<Cell>>,
    members: Vec<Vec<Coord>>,
    free: Vec<Coord>,
}

impl Layout {
    /// The cells as a grid; a cell of no region has the board's size for its region id.
    spec fn grid(&self) -> Grid {
        grid_of(self.cells)
    }

    /// The cells of each region.
    spec fn lists(&self) -> Seq<Seq<Coord>> {
        lists_of(self.members)
    }

    /// The board as a plain value.
    spec fn model(&self) -> Growth {
        Growth { cells: self.grid(), lists: self.lists(), free: self.free@ }
    }

    /// The grid is square and blank, the lists agree with it and are in an
    /// order of growth, and the free cells are, once each, the cells of no region.
    spec fn inv(&self) -> bool {
        let g = self.grid();
        &&& g.len() * g.len() <= usize::MAX
        &&& forall|y: int| 0 <= y < g.len() ==> (#[trigger] g[y]).len() == g.len()
        &&& forall|x: int, y: int|
            in_bounds(g, x, y) ==> (#[trigger] g[y][x]).region <= g.len() && g[y][x].mark == Mark::Blank
        &&& index_ok(g, self.lists())
        &&& grown(self.lists())
        &&& forall|k: int| 0 <= k < self.free@.len() ==> is_open(g, spot(#[trigger] self.free@[k]))
        &&& forall|k: int, m: int|
            0 <= k < m < self.free@.len() ==> #[trigger] self.free@[k] != #[trigger] self.free@[m]
        &&& forall|x: int, y: int|
            in_bounds(g, x, y) && (#[trigger] g[y][x]).region >= g.len() ==> listed(self.free@, x, y)
    }

    /// A board of size `n` on which no region has a cell yet.
    fn empty(n: usize) -> (layout: Layout)
        requires
            n * n <= usize::MAX,
        ensures
            layout.inv(),
            layout.model() == unclaimed(n as nat),
            layout.grid().len() == n,
            layout.free@.len() == n * n,
            forall|r: int| 0 <= r < n ==> (#[trigger] layout.lists()[r]).len() == 0,
    {
        let mut cells: Vec<Vec<Cell>> = Vec::new();
        let mut free: Vec<Coord> = Vec::new();
        let mut y: usize = 0;
        while y < n
            invariant
                n * n <= usize::MAX,
                y <= n,
                cells@.len() == y,
                free@.len() == y * n,
                free@ == all_coords(n as int, y as int),
                forall|b: int| 0 <= b < y ==> (#[trigger] cells@[b])@.len() == n,
                forall|a: int, b: int|
                    0 <= b < y && 0 <= a < n ==> (#[trigger] cells@[b]@[a]) == (Cell {
                        region: n,
                        mark: Mark::Blank,
                    }),
                forall|k: int|
                    0 <= k < free@.len() ==> (#[trigger] free@[k]).x < n && free@[k].y < y,
                forall|k: int, m: int|
                    0 <= k < m < free@.len() ==> #[trigger] free@[k] != #[trigger] free@[m],
                forall|a: int, b: int| 0 <= b < y && 0 <= a < n ==> listed(free@, a, b),
            decreases n - y,
        {
            let mut row: Vec<Cell> = Vec::new();
            let mut x: usize = 0;
            assert(free@ =~= all_coords(n as int, y as int) + row_coords(y, 0));
            while x < n
                invariant
                    n * n <= usize::MAX,
                    y < n,
                    x <= n,
                    row@.len() == x,
                    free@.len() == y * n + x,
                    free@ == all_coords(n as int, y as int) + row_coords(y, x as int),
                    forall|a: int| 0 <= a < x ==> (#[trigger] row@[a]) == (Cell {
                        region: n,
                        mark: Mark::Blank,
                    }),
                    forall|k: int|
                        0 <= k < free@.len() ==> (#[trigger] free@[k]).x < n && (free@[k].y < y || (
                        free@[k].y == y && free@[k].x < x)),
                    forall|k: int, m: int|
                        0 <= k < m < free@.len() ==> #[trigger] free@[k] != #[trigger] free@[m],
                    forall|a: int, b: int|
                        (0 <= b < y && 0 <= a < n) || (b == y && 0 <= a < x) ==> listed(free@, a, b),
                decreases n - x,
            {
                proof {
                    assert(y * n + n <= n * n) by (nonlinear_arith)
                        requires
                            y < n,
                    ;
                }
                row.push(Cell { region: n, mark: Mark::Blank });
                let ghost before = free@;
                free.push(Coord { x, y });
                proof {
                    assert(free@ =~= all_coords(n as int, y as int) + row_coords(y, x + 1));
                    assert forall|a: int, b: int|
                        (0 <= b < y && 0 <= a < n) || (b == y && 0 <= a < x + 1) implies listed(
                        free@,
                        a,
                        b,
                    ) by {
                        if b == y && a == x {
                            assert(free@[before.len() as int] == Coord { x: a as usize, y: b as usize });
                        } else {
                            assert(listed(before, a, b));
                            let k = choose|k: int|
                                0 <= k < before.len() && #[trigger] before[k] == (Coord {
                                    x: a as usize,
                                    y: b as usize,
                                });
                            assert(free@[k] == before[k]);
                        }
                    }
                }
                x = x + 1;
            }
            cells.push(row);
            proof {
                assert(y * n + n == (y + 1) * n) by (nonlinear_arith);
                assert(free@ == all_coords(n as int, y + 1));
            }
            y = y + 1;
        }
        let mut members: Vec<Vec<Coord>> = Vec::new();
        let mut r: usize = 0;
        while r < n
            invariant
                r <= n,
                members@.len() == r,
                forall|q: int| 0 <= q < r ==> (#[trigger] members@[q])@.len() == 0,
            decreases n - r,
        {
            members.push(Vec::new());
            r = r + 1;
        }
        let layout = Layout { cells, members, free };
        proof {
            let g = layout.grid();
            assert(g.len() == n);
            assert(g =~~= unclaimed(n as nat).cells) by {
                assert forall|y: int| 0 <= y < n implies #[trigger] g[y] =~= unclaimed(n as nat).cells[y] by {
                    assert forall|x: int| 0 <= x < n implies g[y][x] == unclaimed(n as nat).cells[y][x] by {
                        assert(layout.cells@[y]@[x] == Cell { region: n, mark: Mark::Blank });
                    }
                }
            }
            assert(layout.lists() =~~= unclaimed(n as nat).lists) by {
                assert forall|r: int| 0 <= r < n implies #[trigger] layout.lists()[r] =~= unclaimed(
                    n as nat,
                ).lists[r] by {
                    assert(layout.members@[r]@.len() == 0);
                }
            }
            assert forall|x: int, y: int| in_bounds(g, x, y) implies (#[trigger] g[y][x]).region <= g.len()
                && g[y][x].mark == Mark::Blank by {
                assert(layout.cells@[y]@[x] == Cell { region: n, mark: Mark::Blank });
            }
            assert forall|x: int, y: int|
                in_bounds(g, x, y) && (#[trigger] g[y][x]).region >= g.len() implies listed(
                layout.free@,
                x,
                y,
            ) by {}
            assert forall|k: int| 0 <= k < layout.free@.len() implies is_open(
                g,
                spot(#[trigger] layout.free@[k]),
            ) by {
                let c = layout.free@[k];
                assert(layout.cells@[c.y as int]@[c.x as int] == Cell { region: n, mark: Mark::Blank });
            }
            assert forall|x: int, y: int|
                #![trigger g[y][x]]
                in_bounds(g, x, y) && g[y][x].region < g.len() implies listed(
                layout.lists()[g[y][x].region as int],
                x,
                y,
            ) by {
                assert(layout.cells@[y]@[x] == Cell { region: n, mark: Mark::Blank });
            }
        }
        layout
    }

    /// Gives the free cell at `k` to region `r`, which is empty or has a cell
    /// that shares an edge with it.
    fn claim(&mut self, r: usize, k: usize)
        requires
            old(self).inv(),
            r < old(self).grid().len(),
            k < old(self).free@.len(),
            old(self).lists()[r as int].len() == 0 || exists|j: int|
                0 <= j < old(self).lists()[r as int].len() && adjacent(
                    spot(old(self).free@[k as int]),
                    spot(#[trigger] old(self).lists()[r as int][j]),
                ),
        ensures
            final(self).inv(),
            final(self).model() == claimed(old(self).model(), r as int, k as int),
            final(self).grid().len() == old(self).grid().len(),
            final(self).free@.len() == old(self).free@.len() - 1,
            final(self).lists()[r as int] == old(self).lists()[r as int].push(old(self).free@[k as int]),
            forall|q: int|
                0 <= q < old(self).lists().len() && q != r
                    ==> #[trigger] final(self).lists()[q] == old(self).lists()[q],
    {
        let ghost g = self.grid();
        let ghost lists = self.lists();
        let ghost free = self.free@;
        let c = self.free.swap_remove(k);
        assert(is_open(g, spot(free[k as int])));
        assert(g[c.y as int].len() == g.len());
        self.cells[c.y][c.x] = Cell { region: r, mark: Mark::Blank };
        self.members[r].push(c);
        proof {
            let h = self.grid();
            let after = self.lists();
            let rest = self.free@;
            assert(h =~~= with_region(g, c.x as int, c.y as int, r));
            assert(after.len() == lists.len());
            assert(after[r as int] == lists[r as int].push(c));
            assert forall|q: int| 0 <= q < lists.len() && q != r implies #[trigger] after[q] == lists[q] by {}
            assert(after =~= lists.update(r as int, lists[r as int].push(c)));
            assert forall|x: int, y: int| in_bounds(h, x, y) implies (#[trigger] h[y][x]).region <= h.len()
                && h[y][x].mark == Mark::Blank by {
                if !(x == c.x && y == c.y) {
                    assert(h[y][x] == g[y][x]);
                }
            }
            // the lists agree with the cells
            assert forall|q: int, i: int|
                #![trigger after[q][i]]
                0 <= q < after.len() && 0 <= i < after[q].len() implies {
                let p = after[q][i];
                in_bounds(h, p.x as int, p.y as int) && h[p.y as int][p.x as int].region == q
            } by {
                if q == r && i == lists[r as int].len() {
                } else {
                    let p = lists[q][i];
                    assert(after[q][i] == p);
                    assert(g[p.y as int][p.x as int].region == q);
                }
            }
            assert forall|q: int, i: int, j: int|
                #![trigger after[q][i], after[q][j]]
                0 <= q < after.len() && 0 <= i < j < after[q].len() implies after[q][i] != after[q][j] by {
                if q == r && j == lists[r as int].len() {
                    let p = lists[q][i];
                    assert(g[p.y as int][p.x as int].region == q);
                } else {
                    assert(lists[q][i] != lists[q][j]);
                }
            }
            assert forall|x: int, y: int|
                #![trigger h[y][x]]
                in_bounds(h, x, y) && h[y][x].region < h.len() implies listed(
                after[h[y][x].region as int],
                x,
                y,
            ) by {
                if x == c.x && y == c.y {
                    assert(after[r as int][lists[r as int].len() as int] == c);
                } else {
                    assert(h[y][x] == g[y][x]);
                    let q = g[y][x].region as int;
                    assert(listed(lists[q], x, y));
                    let i = choose|i: int|
                        0 <= i < lists[q].len() && #[trigger] lists[q][i] == (Coord {
                            x: x as usize,
                            y: y as usize,
                        });
                    assert(after[q][i] == lists[q][i]);
                }
            }
            // the order of growth
            assert forall|q: int, i: int|
                0 <= q < after.len() && 1 <= i < after[q].len() implies #[trigger] anchored(
                after[q],
                i,
            ) by {
                if q == r && i == lists[r as int].len() {
                    let j = choose|j: int|
                        0 <= j < lists[r as int].len() && adjacent(
                            spot(free[k as int]),
                            spot(#[trigger] lists[r as int][j]),
                        );
                    assert(after[q][j] == lists[r as int][j]);
                } else {
                    assert(anchored(lists[q], i));
                    let j = choose|j: int|
                        0 <= j < i && adjacent(spot(lists[q][i]), spot(#[trigger] lists[q][j]));
                    assert(after[q][j] == lists[q][j]);
                    assert(after[q][i] == lists[q][i]);
                }
            }
            // the free cells
            assert forall|m: int| 0 <= m < rest.len() implies is_open(h, spot(#[trigger] rest[m])) by {
                let m0 = if m == k { free.len() - 1 } else { m };
                assert(rest[m] == free[m0]);
                assert(free[m0] != free[k as int]);
                assert(is_open(g, spot(free[m0])));
            }
            assert forall|m1: int, m2: int| 0 <= m1 < m2 < rest.len() implies #[trigger] rest[m1]
                != #[trigger] rest[m2] by {
                let a = if m1 == k { free.len() - 1 } else { m1 };
                let b = if m2 == k { free.len() - 1 } else { m2 };
                assert(rest[m1] == free[a]);
                assert(rest[m2] == free[b]);
                assert(free[a] != free[b]);
            }
            assert forall|x: int, y: int|
                in_bounds(h, x, y) && (#[trigger] h[y][x]).region >= h.len() implies listed(rest, x, y) by {
                assert(h[y][x] == g[y][x]);
                assert(listed(free, x, y));
                let m = choose|m: int|
                    0 <= m < free.len() && #[trigger] free[m] == (Coord { x: x as usize, y: y as usize });
                if m == free.len() - 1 {
                    assert(rest[k as int] == free[m]);
                } else {
                    assert(rest[m] == free[m]);
                }
            }
        }
    }

    /// Adds the cell `c`, which shares an edge with the cell at `j` of the list
    /// of region `r`, to `front` if it is open and not yet there.
    fn note(&self, front: &mut Vec<Coord>, c: Coord, Ghost(r): Ghost<int>, Ghost(j): Ghost<int>)
        requires
            self.inv(),
            0 <= r < self.lists().len(),
            0 <= j < self.lists()[r].len(),
            in_bounds(self.grid(), c.x as int, c.y as int),
            adjacent(spot(c), spot(self.lists()[r][j])),
            forall|k: int|
                0 <= k < old(front)@.len() ==> borders(
                    self.grid(),
                    self.lists()[r],
                    j + 1,
                    spot(#[trigger] old(front)@[k]),
                ),
            forall|k: int, m: int|
                0 <= k < m < old(front)@.len() ==> #[trigger] old(front)@[k] != #[trigger] old(front)@[m],
        ensures
            forall|k: int|
                0 <= k < final(front)@.len() ==> borders(
                    self.grid(),
                    self.lists()[r],
                    j + 1,
                    spot(#[trigger] final(front)@[k]),
                ),
            forall|k: int, m: int|
                0 <= k < m < final(front)@.len()
                    ==> #[trigger] final(front)@[k] != #[trigger] final(front)@[m],
            forall|x: int, y: int| listed(old(front)@, x, y) ==> listed(final(front)@, x, y),
            is_open(self.grid(), spot(c)) ==> listed(final(front)@, c.x as int, c.y as int),
            final(front)@ == noted(self.grid(), old(front)@, c),
    {
        let n: usize = self.cells.len();
        assert(self.grid()[c.y as int].len() == n);
        if self.cells[c.y][c.x].region < n {
            return ;
        }
        let mut k: usize = 0;
        while k < front.len()
            invariant
                k <= front@.len(),
                front@ == old(front)@,
                forall|m: int| 0 <= m < k ==> front@[m] != c,
                forall|m: int|
                    0 <= m < front@.len() ==> borders(
                        self.grid(),
                        self.lists()[r],
                        j + 1,
                        spot(#[trigger] front@[m]),
                    ),
                forall|m: int, i: int|
                    0 <= m < i < front@.len() ==> #[trigger] front@[m] != #[trigger] front@[i],
            decreases front@.len() - k,
        {
            if front[k] == c {
                assert(front@[k as int] == Coord { x: c.x as int as usize, y: c.y as int as usize });
                assert(front@.contains(c));
                return ;
            }
            k = k + 1;
        }
        front.push(c);
        proof {
            let before = old(front)@;
            assert(front@[before.len() as int] == Coord { x: c.x as int as usize, y: c.y as int as usize });
            assert forall|x: int, y: int| listed(before, x, y) implies listed(front@, x, y) by {
                let m = choose|m: int|
                    0 <= m < before.len() && #[trigger] before[m] == (Coord {
                        x: x as usize,
                        y: y as usize,
                    });
                assert(front@[m] == before[m]);
            }
            assert forall|m: int| 0 <= m < front@.len() implies borders(
                self.grid(),
                self.lists()[r],
                j + 1,
                spot(#[trigger] front@[m]),
            ) by {
                if m < before.len() {
                    assert(front@[m] == before[m]);
                }
            }
        }
    }

    /// The open cells that share an edge with a cell of region `r`, once each.
    fn frontier(&self, r: usize) -> (front: Vec<Coord>)
        requires
            self.inv(),
            r < self.grid().len(),
        ensures
            is_front(self.grid(), self.lists()[r as int], self.lists()[r as int].len() as int, front@),
            front@ == front_of(self.model(), r as int),
    {
        let n: usize = self.cells.len();
        let ghost g = self.grid();
        let ghost list = self.lists()[r as int];
        let members = &self.members[r];
        let mut front: Vec<Coord> = Vec::new();
        let mut j: usize = 0;
        while j < members.len()
            invariant
                self.inv(),
                n == self.grid().len(),
                g == self.grid(),
                r < n,
                list == self.lists()[r as int],
                members@ == list,
                j <= list.len(),
                is_front(g, list, j as int, front@),
                front@ == frontier_of(g, list, j as int),
            decreases list.len() - j,
        {
            let m = members[j];
            let ghost start = front@;
            assert(in_bounds(g, m.x as int, m.y as int));
            assert forall|k: int| 0 <= k < front@.len() implies borders(
                g,
                list,
                j + 1,
                spot(#[trigger] front@[k]),
            ) by {
                assert(borders(g, list, j as int, spot(front@[k])));
            }
            if m.x + 1 < n {
                self.note(&mut front, Coord { x: m.x + 1, y: m.y }, Ghost(r as int), Ghost(j as int));
            }
            if m.x > 0 {
                self.note(&mut front, Coord { x: m.x - 1, y: m.y }, Ghost(r as int), Ghost(j as int));
            }
            if m.y + 1 < n {
                self.note(&mut front, Coord { x: m.x, y: m.y + 1 }, Ghost(r as int), Ghost(j as int));
            }
            if m.y > 0 {
                self.note(&mut front, Coord { x: m.x, y: m.y - 1 }, Ghost(r as int), Ghost(j as int));
            }
            proof {
                assert forall|p: Spot| #[trigger] borders(g, list, j + 1, p) implies listed(
                    front@,
                    p.x,
                    p.y,
                ) by {
                    if borders(g, list, j as int, p) {
                        assert(listed(start, p.x, p.y));
                    } else {
                        assert(adjacent(p, spot(list[j as int])));
                    }
                }
            }
            j = j + 1;
        }
        front
    }

    /// The place of the open cell `c` among the free cells.
    fn find_free(&self, c: Coord) -> (k: usize)
        requires
            self.inv(),
            is_open(self.grid(), spot(c)),
        ensures
            k < self.free@.len(),
            self.free@[k as int] == c,
            k == self.free@.index_of(c),
    {
        assert(self.grid()[c.y as int][c.x as int].region >= self.grid().len());
        assert(listed(self.free@, c.x as int, c.y as int));
        let ghost at: int = choose|i: int|
            0 <= i < self.free@.len() && #[trigger] self.free@[i] == (Coord {
                x: c.x as int as usize,
                y: c.y as int as usize,
            });
        let len: usize = self.free.len();
        let mut k: usize = 0;
        while self.free[k] != c
            invariant
                0 <= k <= at < self.free@.len() == len,
                self.free@[at] == c,
            decreases at - k,
        {
            k = k + 1;
        }
        proof {
            let i = self.free@.index_of(c);
            assert(0 <= i < self.free@.len() && self.free@[i] == c);
            if i < k {
                assert(self.free@[i] != self.free@[k as int]);
            }
            if k < i {
                assert(self.free@[k as int] != self.free@[i]);
            }
        }
        k
    }

    /// Lets one region, drawn among those that have an open cell at an edge,
    /// take one such cell, drawn among its own. (Drawing among the regions that
    /// can grow is drawing among all of them until one can.)
    fn grow(&mut self, rng: &mut Rng)
        requires
            old(self).inv(),
            old(self).free@.len() > 0,
            all_seeded(old(self).lists()),
        ensures
            final(self).inv(),
            final(self).grid().len() == old(self).grid().len(),
            final(self).free@.len() == old(self).free@.len() - 1,
            all_seeded(final(self).lists()),
            final(rng).state() == advanced(advanced(old(rng).state())),
            final(self).model() == grown_once(old(self).model(), old(rng).state()),
    {
        let n: usize = self.cells.len();
        let ghost g = self.grid();
        let ghost lists = self.lists();
        let mut fronts: Vec<Vec<Coord>> = Vec::new();
        let mut able: Vec<usize> = Vec::new();
        let mut r: usize = 0;
        while r < n
            invariant
                self.inv(),
                g == self.grid(),
                lists == self.lists(),
                n == g.len(),
                r <= n,
                fronts@.len() == r,
                forall|q: int|
                    0 <= q < r ==> is_front(g, lists[q], lists[q].len() as int, (#[trigger] fronts@[q])@),
                forall|q: int| 0 <= q < r ==> (#[trigger] fronts@[q])@ == front_of(self.model(), q),
                able@ == able_of(self.model(), r as int),
                forall|k: int| 0 <= k < able@.len() ==> (#[trigger] able@[k]) < r && fronts@[able@[k] as int]@.len() > 0,
                forall|q: int| 0 <= q < r && fronts@[q]@.len() > 0 ==> able@.contains(q as usize),
            decreases n - r,
        {
            let front = self.frontier(r);
            let ghost before = able@;
            if front.len() > 0 {
                able.push(r);
                assert(able@[before.len() as int] == r);
            }
            fronts.push(front);
            proof {
                assert forall|q: int| 0 <= q < r + 1 && fronts@[q]@.len() > 0 implies able@.contains(
                    q as usize,
                ) by {
                    if q < r {
                        assert(before.contains(q as usize));
                        let k = choose|k: int| 0 <= k < before.len() && before[k] == q as usize;
                        assert(able@[k] == q as usize);
                    }
                }
            }
            r = r + 1;
        }
        proof {
            // some region can grow: somewhere an open cell lies at the edge of a taken one
            let u = spot(self.free@[0]);
            assert(is_open(g, u));
            assert(lists[0].len() > 0);
            let a = spot(lists[0][0]);
            assert(is_taken(g, a));
            lemma_border(g, u, a);
            let (p, q) = choose|p: Spot, q: Spot| #[trigger] is_border(g, p, q);
            let rq = g[q.y][q.x].region as int;
            assert(listed(lists[rq], q.x, q.y));
            let j = choose|j: int|
                0 <= j < lists[rq].len() && #[trigger] lists[rq][j] == (Coord {
                    x: q.x as usize,
                    y: q.y as usize,
                });
            assert(spot(lists[rq][j]) == q);
            assert(borders(g, lists[rq], lists[rq].len() as int, p));
            assert(listed(fronts@[rq]@, p.x, p.y));
            assert(able@.contains(rq as usize));
        }
        let r: usize = able[rng.below(able.len())];
        let front = &fronts[r];
        let c = front[rng.below(front.len())];
        proof {
            assert(borders(g, lists[r as int], lists[r as int].len() as int, spot(c)));
        }
        let k: usize = self.find_free(c);
        self.claim(r, k);
        proof {
            assert forall|q: int| 0 <= q < self.lists().len() implies (#[trigger] self.lists()[q]).len()
                > 0 by {
                assert(lists[q].len() > 0);
                if q != r {
                    assert(self.lists()[q] == lists[q]);
                }
            }
        }
    }
}

impl State {
    /// A blank board of size `n`, split at random into `n` regions, each in one
    /// piece: `n` cells are drawn as seeds, one for each region, and then, until no
    /// cell is left, a region is drawn and takes one of the free cells at its edge.
    pub fn new_blank(n: usize, rng: &mut Rng) -> (board: State)
        requires
            n * n <= usize::MAX,
        ensures
            board.wf(),
            board@.len() == n,
            is_blank(board@),
            is_partitioned(board@),
            board@ == partition_of(n as nat, old(rng).state()),
            final(rng).state() == advanced_by(old(rng).state(), draws(n as nat)),
    {
        let mut layout = Layout::empty(n);
        let mut r: usize = 0;
        while r < n
            invariant
                layout.inv(),
                layout.grid().len() == n,
                r <= n,
                rng.state() == advanced_by(old(rng).state(), r as nat),
                layout.model() == seeded(n as nat, old(rng).state(), r as nat),
                layout.free@.len() == n * n - r,
                forall|q: int| 0 <= q < r ==> (#[trigger] layout.lists()[q]).len() > 0,
                forall|q: int| r <= q < n ==> (#[trigger] layout.lists()[q]).len() == 0,
            decreases n - r,
        {
            proof {
                assert(n * n >= n) by (nonlinear_arith)
                    requires
                        n >= 1,
                ;
            }
            let k: usize = rng.below(layout.free.len());
            let ghost before = layout.lists();
            layout.claim(r, k);
            proof {
                assert forall|q: int| 0 <= q < r + 1 implies (#[trigger] layout.lists()[q]).len() > 0 by {
                    if q < r {
                        assert(layout.lists()[q] == before[q]);
                    }
                }
                assert forall|q: int| r + 1 <= q < n implies (#[trigger] layout.lists()[q]).len() == 0 by {
                    assert(layout.lists()[q] == before[q]);
                }
            }
            r = r + 1;
        }
        let ghost mut grown: nat = 0;
        while layout.free.len() > 0
            invariant
                layout.inv(),
                layout.grid().len() == n,
                all_seeded(layout.lists()),
                layout.free@.len() + grown == n * n - n,
                rng.state() == advanced_by(old(rng).state(), (n + 2 * grown) as nat),
                layout.model() == grown_by(
                    seeded(n as nat, old(rng).state(), n as nat),
                    advanced_by(old(rng).state(), n as nat),
                    grown,
                ),
            decreases layout.free@.len(),
        {
            let ghost before: u64 = rng.state();
            layout.grow(rng);
            proof {
                assert(advanced_by(before, 2) == advanced(advanced(before))) by {
                    assert(advanced_by(before, 1) == advanced(advanced_by(before, 0)));
                }
                lemma_advanced_on(old(rng).state(), (n + 2 * grown) as nat, 2);
                lemma_advanced_on(old(rng).state(), n as nat, (2 * grown) as nat);
                grown = grown + 1;
            }
        }
        proof {
            assert(n + 2 * (n * n - n) == 2 * n * n - n) by (nonlinear_arith);
            let g = layout.grid();
            assert forall|x: int, y: int| 0 <= y < g.len() && 0 <= x < g.len() implies (#[trigger] g[y][x]).region
                < g.len() by {
                if g[y][x].region >= g.len() {
                    assert(listed(layout.free@, x, y));
                }
            }
            lemma_grown_partition(g, layout.lists());
        }
        State::from_parts(layout.cells, layout.members)
    }
}

} // verus!
