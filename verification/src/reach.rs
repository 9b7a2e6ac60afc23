//! Reachability through carved walls: paths, connectedness, and the lemmas
//! that let the generator conclude the finished maze is one connected tree.

use vstd::prelude::*;

use crate::maze::Direction;
use crate::maze::Maze;

verus! {

/// Two in-bounds cells joined by a grid edge whose shared wall is carved.
pub open(crate) spec fn carved_edge(m: &Maze, x1: int, y1: int, x2: int, y2: int) -> bool {
    &&& m.in_bounds(x1, y1)
    &&& m.in_bounds(x2, y2)
    &&& {
        ||| (x2 == x1 + 1 && y2 == y1 && !m.wall_at(x1, y1, Direction::Right))
        ||| (x2 == x1 - 1 && y2 == y1 && !m.wall_at(x1, y1, Direction::Left))
        ||| (y2 == y1 + 1 && x2 == x1 && !m.wall_at(x1, y1, Direction::Down))
        ||| (y2 == y1 - 1 && x2 == x1 && !m.wall_at(x1, y1, Direction::Up))
    }
}

/// A walk through the maze: at least one cell, every step a carved edge.
pub open(crate) spec fn is_path(m: &Maze, p: Seq<(int, int)>) -> bool {
    &&& p.len() >= 1
    &&& forall|i: int| 0 <= i < p.len() ==> m.in_bounds(#[trigger] p[i].0, p[i].1)
    &&& forall|i: int|
        0 <= i < p.len() - 1 ==> carved_edge(m, #[trigger] p[i].0, p[i].1, p[i + 1].0, p[i + 1].1)
}

/// Some walk through carved walls leads from one cell to the other.
pub open(crate) spec fn connected(m: &Maze, x1: int, y1: int, x2: int, y2: int) -> bool {
    exists|p: Seq<(int, int)>|
        #[trigger] is_path(m, p) && p.first() == (x1, y1) && p.last() == (x2, y2)
}

/// Walls are only ever removed going from `m1` to `m2`.
pub open(crate) spec fn no_new_walls(m1: &Maze, m2: &Maze) -> bool {
    &&& m2.same_dims(m1)
    &&& m2.vw().len() == m1.vw().len()
    &&& m2.hw().len() == m1.hw().len()
    &&& forall|i: int| 0 <= i < m2.vw().len() && #[trigger] m2.vw()[i] ==> m1.vw()[i]
    &&& forall|i: int| 0 <= i < m2.hw().len() && #[trigger] m2.hw()[i] ==> m1.hw()[i]
}

pub proof fn lemma_connected_refl(m: &Maze, x: int, y: int)
    requires
        m.in_bounds(x, y),
    ensures
        connected(m, x, y, x, y),
{
    let p: Seq<(int, int)> = seq![(x, y)];
    assert(is_path(m, p));
}

pub proof fn lemma_carved_edge_sym(m: &Maze, x1: int, y1: int, x2: int, y2: int)
    requires
        carved_edge(m, x1, y1, x2, y2),
    ensures
        carved_edge(m, x2, y2, x1, y1),
{
}

pub proof fn lemma_connected_step(m: &Maze, x1: int, y1: int, x2: int, y2: int, x3: int, y3: int)
    requires
        connected(m, x1, y1, x2, y2),
        carved_edge(m, x2, y2, x3, y3),
    ensures
        connected(m, x1, y1, x3, y3),
{
    let p = choose|p: Seq<(int, int)>|
        #[trigger] is_path(m, p) && p.first() == (x1, y1) && p.last() == (x2, y2);
    let q = p.push((x3, y3));
    assert forall|i: int| 0 <= i < q.len() - 1 implies carved_edge(
        m,
        #[trigger] q[i].0,
        q[i].1,
        q[i + 1].0,
        q[i + 1].1,
    ) by {
        if i < p.len() - 1 {
            assert(carved_edge(m, p[i].0, p[i].1, p[i + 1].0, p[i + 1].1));
        }
    }
    assert(is_path(m, q));
    assert(q.first() == (x1, y1) && q.last() == (x3, y3));
}

proof fn lemma_path_sym(m: &Maze, p: Seq<(int, int)>)
    requires
        is_path(m, p),
    ensures
        connected(m, p.last().0, p.last().1, p.first().0, p.first().1),
    decreases p.len(),
{
    if p.len() == 1 {
        lemma_connected_refl(m, p.first().0, p.first().1);
    } else {
        let q = p.drop_first();
        assert forall|i: int| 0 <= i < q.len() - 1 implies carved_edge(
            m,
            #[trigger] q[i].0,
            q[i].1,
            q[i + 1].0,
            q[i + 1].1,
        ) by {
            assert(carved_edge(m, p[i + 1].0, p[i + 1].1, p[i + 2].0, p[i + 2].1));
        }
        assert(is_path(m, q));
        lemma_path_sym(m, q);
        assert(carved_edge(m, p[0].0, p[0].1, p[1].0, p[1].1));
        lemma_carved_edge_sym(m, p[0].0, p[0].1, p[1].0, p[1].1);
        lemma_connected_step(m, p.last().0, p.last().1, q.first().0, q.first().1, p.first().0, p.first().1);
    }
}

pub proof fn lemma_connected_sym(m: &Maze, x1: int, y1: int, x2: int, y2: int)
    requires
        connected(m, x1, y1, x2, y2),
    ensures
        connected(m, x2, y2, x1, y1),
{
    let p = choose|p: Seq<(int, int)>|
        #[trigger] is_path(m, p) && p.first() == (x1, y1) && p.last() == (x2, y2);
    lemma_path_sym(m, p);
}

proof fn lemma_path_extend(m: &Maze, x1: int, y1: int, p: Seq<(int, int)>)
    requires
        is_path(m, p),
        connected(m, x1, y1, p.first().0, p.first().1),
    ensures
        connected(m, x1, y1, p.last().0, p.last().1),
    decreases p.len(),
{
    if p.len() > 1 {
        assert(carved_edge(m, p[0].0, p[0].1, p[1].0, p[1].1));
        lemma_connected_step(m, x1, y1, p[0].0, p[0].1, p[1].0, p[1].1);
        let q = p.drop_first();
        assert forall|i: int| 0 <= i < q.len() - 1 implies carved_edge(
            m,
            #[trigger] q[i].0,
            q[i].1,
            q[i + 1].0,
            q[i + 1].1,
        ) by {
            assert(carved_edge(m, p[i + 1].0, p[i + 1].1, p[i + 2].0, p[i + 2].1));
        }
        assert(is_path(m, q));
        lemma_path_extend(m, x1, y1, q);
    }
}

pub proof fn lemma_connected_trans(m: &Maze, x1: int, y1: int, x2: int, y2: int, x3: int, y3: int)
    requires
        connected(m, x1, y1, x2, y2),
        connected(m, x2, y2, x3, y3),
    ensures
        connected(m, x1, y1, x3, y3),
{
    let p = choose|p: Seq<(int, int)>|
        #[trigger] is_path(m, p) && p.first() == (x2, y2) && p.last() == (x3, y3);
    lemma_path_extend(m, x1, y1, p);
}

/// A wall still standing in the later maze stood in the earlier one.
proof fn lemma_wall_monotone(m1: &Maze, m2: &Maze, x: int, y: int, d: Direction)
    requires
        m1.wf(),
        no_new_walls(m1, m2),
        m1.in_bounds(x, y),
    ensures
        m2.wall_at(x, y, d) ==> m1.wall_at(x, y, d),
{
    m1.lemma_slot_in_range(x, y, d);
}

/// Carving more walls never disconnects anything.
pub proof fn lemma_connected_monotone(m1: &Maze, m2: &Maze, x1: int, y1: int, x2: int, y2: int)
    requires
        m1.wf(),
        no_new_walls(m1, m2),
        connected(m1, x1, y1, x2, y2),
    ensures
        connected(m2, x1, y1, x2, y2),
{
    let p = choose|p: Seq<(int, int)>|
        #[trigger] is_path(m1, p) && p.first() == (x1, y1) && p.last() == (x2, y2);
    assert forall|i: int| 0 <= i < p.len() - 1 implies carved_edge(
        m2,
        #[trigger] p[i].0,
        p[i].1,
        p[i + 1].0,
        p[i + 1].1,
    ) by {
        assert(carved_edge(m1, p[i].0, p[i].1, p[i + 1].0, p[i + 1].1));
        lemma_wall_monotone(m1, m2, p[i].0, p[i].1, Direction::Left);
        lemma_wall_monotone(m1, m2, p[i].0, p[i].1, Direction::Right);
        lemma_wall_monotone(m1, m2, p[i].0, p[i].1, Direction::Up);
        lemma_wall_monotone(m1, m2, p[i].0, p[i].1, Direction::Down);
    }
    assert(is_path(m2, p));
}

/// A set of cells that contains one cell and is closed under in-grid
/// adjacency contains every cell of the grid.
pub proof fn lemma_closed_covers(
    w: int,
    h: int,
    vis: spec_fn(int, int) -> bool,
    sx: int,
    sy: int,
    tx: int,
    ty: int,
)
    requires
        0 <= sx < w,
        0 <= sy < h,
        0 <= tx < w,
        0 <= ty < h,
        vis(sx, sy),
        forall|x: int, y: int|
            0 <= x < w && 0 <= y < h && #[trigger] vis(x, y) ==> (x + 1 < w ==> vis(x + 1, y)) && (
            0 <= x - 1 ==> vis(x - 1, y)) && (y + 1 < h ==> vis(x, y + 1)) && (0 <= y - 1 ==> vis(
                x,
                y - 1,
            )),
    ensures
        vis(tx, ty),
    decreases (if tx >= sx { tx - sx } else { sx - tx }) + (if ty >= sy { ty - sy } else { sy - ty }),
{
    if sx < tx {
        lemma_closed_covers(w, h, vis, sx + 1, sy, tx, ty);
    } else if sx > tx {
        lemma_closed_covers(w, h, vis, sx - 1, sy, tx, ty);
    } else if sy < ty {
        lemma_closed_covers(w, h, vis, sx, sy + 1, tx, ty);
    } else if sy > ty {
        lemma_closed_covers(w, h, vis, sx, sy - 1, tx, ty);
    }
}

} // verus!
