//! What it means for the regions of a board to be a partition into connected pieces.

use vstd::prelude::*;
use crate::cell::Mark;
use crate::grid::{Grid, in_bounds, is_board, with_mark, lemma_count_with_mark};
use crate::rules::same_regions;

verus! {

/// A place on the board in the contracts: column `x`, row `y`.
pub struct Spot {
    pub x: int,
    pub y: int,
}

/// Two places share an edge.
pub open spec fn adjacent(p: Spot, q: Spot) -> bool {
    ||| p.x == q.x && (p.y == q.y + 1 || q.y == p.y + 1)
    ||| p.y == q.y && (p.x == q.x + 1 || q.x == p.x + 1)
}

/// `p` is a cell of region `r`.
pub open spec fn in_region(g: Grid, r: int, p: Spot) -> bool {
    in_bounds(g, p.x, p.y) && g[p.y][p.x].region == r
}

/// The place at `i` and the one after it share an edge.
pub open spec fn linked_at(path: Seq<Spot>, i: int) -> bool {
    adjacent(path[i], path[i + 1])
}

/// `path` walks through region `r`: each place is a cell of it and shares an
/// edge with the next.
pub open spec fn is_walk(g: Grid, r: int, path: Seq<Spot>) -> bool {
    &&& path.len() >= 1
    &&& forall|i: int| 0 <= i < path.len() ==> in_region(g, r, #[trigger] path[i])
    &&& forall|i: int| 0 <= i < path.len() - 1 ==> #[trigger] linked_at(path, i)
}

/// A walk through region `r` leads from `p` to `q`.
pub open spec fn joined(g: Grid, r: int, p: Spot, q: Spot) -> bool {
    exists|path: Seq<Spot>| #[trigger] is_walk(g, r, path) && path[0] == p && path[path.len() - 1] == q
}

/// Region `r` is in one piece: a walk through it leads from each of its cells to each other.
pub open spec fn connected(g: Grid, r: int) -> bool {
    forall|p: Spot, q: Spot| in_region(g, r, p) && in_region(g, r, q) ==> #[trigger] joined(g, r, p, q)
}

/// Region `r` has a cell.
pub open spec fn inhabited(g: Grid, r: int) -> bool {
    exists|p: Spot| #[trigger] in_region(g, r, p)
}

/// The board is split into as many regions as it has rows, each with a cell
/// at least and each in one piece. (That every cell lies in exactly one of them is
/// what being a board means.)
pub open spec fn is_partitioned(g: Grid) -> bool {
    &&& is_board(g)
    &&& forall|r: int| 0 <= r < g.len() ==> #[trigger] inhabited(g, r)
    &&& forall|r: int| 0 <= r < g.len() ==> #[trigger] connected(g, r)
}

/// A walk read backwards is a walk.
pub proof fn lemma_walk_reverse(g: Grid, r: int, path: Seq<Spot>)
    requires
        is_walk(g, r, path),
    ensures
        is_walk(g, r, path.reverse()),
        path.reverse()[0] == path[path.len() - 1],
        path.reverse()[path.len() - 1] == path[0],
        path.reverse().len() == path.len(),
{
    let back = path.reverse();
    assert forall|i: int| 0 <= i < back.len() - 1 implies #[trigger] linked_at(back, i) by {
        assert(linked_at(path, path.len() - 2 - i));
    }
}

/// A walk that ends where another begins makes one walk with it.
pub proof fn lemma_walk_join(g: Grid, r: int, a: Seq<Spot>, b: Seq<Spot>)
    requires
        is_walk(g, r, a),
        is_walk(g, r, b),
        a[a.len() - 1] == b[0],
    ensures
        is_walk(g, r, a + b.subrange(1, b.len() as int)),
        (a + b.subrange(1, b.len() as int))[0] == a[0],
        (a + b.subrange(1, b.len() as int))[a.len() + b.len() - 2] == b[b.len() - 1],
        (a + b.subrange(1, b.len() as int)).len() == a.len() + b.len() - 1,
{
    let tail = b.subrange(1, b.len() as int);
    let c = a + tail;
    assert forall|i: int| 0 <= i < c.len() implies in_region(g, r, #[trigger] c[i]) by {
        if i < a.len() {
            assert(c[i] == a[i]);
        } else {
            assert(c[i] == b[i - a.len() + 1]);
        }
    }
    assert forall|i: int| 0 <= i < c.len() - 1 implies #[trigger] linked_at(c, i) by {
        if i < a.len() - 1 {
            assert(linked_at(a, i));
        } else {
            assert(linked_at(b, i - a.len() + 1));
            assert(c[i] == b[i - a.len() + 1]);
        }
    }
}

/// Being joined goes both ways.
pub proof fn lemma_joined_symmetric(g: Grid, r: int, p: Spot, q: Spot)
    requires
        joined(g, r, p, q),
    ensures
        joined(g, r, q, p),
{
    let path = choose|path: Seq<Spot>| #[trigger]
        is_walk(g, r, path) && path[0] == p && path[path.len() - 1] == q;
    lemma_walk_reverse(g, r, path);
    assert(is_walk(g, r, path.reverse()));
}

/// Being joined carries over a cell in between.
pub proof fn lemma_joined_transitive(g: Grid, r: int, p: Spot, m: Spot, q: Spot)
    requires
        joined(g, r, p, m),
        joined(g, r, m, q),
    ensures
        joined(g, r, p, q),
{
    let a = choose|path: Seq<Spot>| #[trigger]
        is_walk(g, r, path) && path[0] == p && path[path.len() - 1] == m;
    let b = choose|path: Seq<Spot>| #[trigger]
        is_walk(g, r, path) && path[0] == m && path[path.len() - 1] == q;
    lemma_walk_join(g, r, a, b);
    assert(is_walk(g, r, a + b.subrange(1, b.len() as int)));
}

/// A cell is joined to itself, and to a cell of its region that shares an edge with it.
pub proof fn lemma_joined_near(g: Grid, r: int, p: Spot, q: Spot)
    requires
        in_region(g, r, p),
        in_region(g, r, q),
        p == q || adjacent(p, q),
    ensures
        joined(g, r, p, q),
{
    if p == q {
        let path = seq![p];
        assert(is_walk(g, r, path));
        assert(path[0] == p && path[path.len() - 1] == q);
    } else {
        let path = seq![p, q];
        assert(linked_at(path, 0));
        assert(is_walk(g, r, path));
        assert(path[0] == p && path[path.len() - 1] == q);
    }
}

/// Whether a board is partitioned is a matter of its regions alone.
pub proof fn lemma_partition_by_regions(a: Grid, b: Grid)
    requires
        is_partitioned(a),
        is_board(b),
        same_regions(a, b),
    ensures
        is_partitioned(b),
{
    assert forall|r: int, p: Spot| in_region(a, r, p) == in_region(b, r, p) by {
        if in_bounds(a, p.x, p.y) {
            assert(a[p.y][p.x].region == b[p.y][p.x].region);
        }
    }
    assert forall|r: int, path: Seq<Spot>| is_walk(a, r, path) implies is_walk(b, r, path) by {
        assert forall|i: int| 0 <= i < path.len() implies in_region(b, r, #[trigger] path[i]) by {
            assert(in_region(a, r, path[i]));
        }
    }
    assert forall|r: int| 0 <= r < b.len() implies #[trigger] inhabited(b, r) by {
        assert(inhabited(a, r));
        let p = choose|p: Spot| #[trigger] in_region(a, r, p);
        assert(in_region(b, r, p));
    }
    assert forall|r: int| 0 <= r < b.len() implies #[trigger] connected(b, r) by {
        assert(connected(a, r));
        assert forall|p: Spot, q: Spot| in_region(b, r, p) && in_region(b, r, q) implies #[trigger] joined(
            b,
            r,
            p,
            q,
        ) by {
            assert(joined(a, r, p, q));
            let path = choose|path: Seq<Spot>| #[trigger]
                is_walk(a, r, path) && path[0] == p && path[path.len() - 1] == q;
            assert(is_walk(b, r, path));
        }
    }
}

/// Changing a mark leaves a partitioned board partitioned.
pub proof fn lemma_mark_keeps_partition(g: Grid, x: int, y: int, m: Mark)
    requires
        is_partitioned(g),
        in_bounds(g, x, y),
    ensures
        is_partitioned(with_mark(g, x, y, m)),
{
    lemma_count_with_mark(g, x, y, m);
    lemma_partition_by_regions(g, with_mark(g, x, y, m));
}

} // verus!
