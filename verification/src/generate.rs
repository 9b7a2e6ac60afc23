//! The maze generator: randomized iterative depth-first carving with a
//! deliberately chosen entrance and exit on the border.

use vstd::prelude::*;

use crate::count::count_grid;
use crate::count::lemma_count_grid_agree;
use crate::count::lemma_count_grid_all;
use crate::count::lemma_count_grid_le;
use crate::count::lemma_count_grid_update;
use crate::count::lemma_count_grid_zero;
use crate::maze::is_vertical;
use crate::maze::lemma_row_major_bound;
use crate::maze::lemma_row_major_inj;
use crate::maze::repeat_bool;
use crate::maze::slot_x;
use crate::maze::slot_y;
use crate::maze::lemma_set_wall_frame;
use crate::maze::Direction;
use crate::maze::Maze;
use crate::reach::carved_edge;
use crate::reach::connected;
use crate::reach::lemma_closed_covers;
use crate::reach::lemma_connected_monotone;
use crate::reach::lemma_connected_refl;
use crate::reach::lemma_connected_step;
use crate::reach::lemma_connected_sym;
use crate::reach::lemma_connected_trans;
use crate::reach::no_new_walls;
use crate::rng::MazeRng;

verus! {

/// Whether the bitmap marks cell `(x, y)` of a `w`-wide grid.
pub open(crate) spec fn vis_at(vis: Seq<bool>, w: int, x: int, y: int) -> bool {
    vis[y * w + x]
}

/// The neighbour of `(x, y)` in direction `d` is out of the grid or marked.
pub open(crate) spec fn nb_visited(m: &Maze, vis: Seq<bool>, x: int, y: int, d: Direction) -> bool {
    m.in_bounds(Maze::step_x(x, d), Maze::step_y(y, d)) ==> vis_at(
        vis,
        m.spec_width(),
        Maze::step_x(x, d),
        Maze::step_y(y, d),
    )
}

pub open(crate) spec fn all_nb_visited(m: &Maze, vis: Seq<bool>, x: int, y: int) -> bool {
    forall|d: Direction| #[trigger] nb_visited(m, vis, x, y, d)
}

/// The cell has some outward wall still standing.
pub open(crate) spec fn has_outward_wall(m: &Maze, x: int, y: int) -> bool {
    exists|d: Direction| #[trigger] m.outward(x, y, d) && m.wall_at(x, y, d)
}

/// Going from `m1` to `m2`, exactly the one border wall `(x, y, d)` was
/// carved, and it was standing before.
pub open(crate) spec fn carved_one_border(m1: &Maze, m2: &Maze, x: int, y: int, d: Direction) -> bool {
    &&& m1.outward(x, y, d)
    &&& m1.wall_at(x, y, d)
    &&& if is_vertical(d) {
        m2.vw() == m1.vw().update(m1.slot_index(x, y, d), false) && m2.hw() == m1.hw()
    } else {
        m2.hw() == m1.hw().update(m1.slot_index(x, y, d), false) && m2.vw() == m1.vw()
    }
}

/// Carved state of the wall between `(x, y)` and `(x + 1, y)`.
pub open(crate) spec fn right_open(m: &Maze) -> spec_fn(int, int) -> bool {
    |x: int, y: int| !m.wall_at(x, y, Direction::Right)
}

/// Carved state of the wall between `(x, y)` and `(x, y + 1)`.
pub open(crate) spec fn down_open(m: &Maze) -> spec_fn(int, int) -> bool {
    |x: int, y: int| !m.wall_at(x, y, Direction::Down)
}

/// Number of carved walls between pairs of adjacent cells.
pub open(crate) spec fn carved_internal(m: &Maze) -> int {
    count_grid(right_open(m), m.spec_height(), m.spec_width() - 1) + count_grid(
        down_open(m),
        m.spec_height() - 1,
        m.spec_width(),
    )
}

pub open(crate) spec fn left_border_open(m: &Maze) -> spec_fn(int, int) -> bool {
    |x: int, y: int| !m.wall_at(0, y, Direction::Left)
}

pub open(crate) spec fn right_border_open(m: &Maze) -> spec_fn(int, int) -> bool {
    |x: int, y: int| !m.wall_at(m.spec_width() - 1, y, Direction::Right)
}

pub open(crate) spec fn top_border_open(m: &Maze) -> spec_fn(int, int) -> bool {
    |x: int, y: int| !m.wall_at(x, 0, Direction::Up)
}

pub open(crate) spec fn bottom_border_open(m: &Maze) -> spec_fn(int, int) -> bool {
    |x: int, y: int| !m.wall_at(x, m.spec_height() - 1, Direction::Down)
}

/// Number of carved walls on the grid's outer border.
pub open(crate) spec fn carved_border(m: &Maze) -> int {
    count_grid(left_border_open(m), m.spec_height(), 1) + count_grid(
        right_border_open(m),
        m.spec_height(),
        1,
    ) + count_grid(top_border_open(m), 1, m.spec_width()) + count_grid(
        bottom_border_open(m),
        1,
        m.spec_width(),
    )
}

/// A cell awaiting carving, with the directions still to try from it.
struct PendingCell {
    x: u32,
    y: u32,
    directions: Vec<Direction>,
}

/// Total number of directions still to try across the whole stack.
spec fn dirs_sum(s: Seq<PendingCell>) -> int
    decreases s.len(),
{
    if s.len() == 0 {
        0
    } else {
        dirs_sum(s.drop_last()) + s.last().directions@.len()
    }
}

/// Cell `(x, y)` occurs somewhere on the stack.
spec fn on_stack(p: Seq<PendingCell>, x: int, y: int) -> bool {
    exists|i: int| 0 <= i < p.len() && #[trigger] p[i].x == x && p[i].y == y
}

/// The four directions in a random order.
#[verifier::loop_isolation(false)]
fn shuffled_directions(rng: &mut MazeRng) -> (v: Vec<Direction>)
    ensures
        v@.len() == 4,
        forall|d: Direction| #[trigger] v@.contains(d),
{
    let mut pool: Vec<Direction> = Vec::new();
    pool.push(Direction::Left);
    pool.push(Direction::Up);
    pool.push(Direction::Right);
    pool.push(Direction::Down);
    assert(forall|d: Direction| #[trigger] pool@.contains(d)) by {
        assert forall|d: Direction| #[trigger] pool@.contains(d) by {
            if d == Direction::Left {
                assert(pool@[0] == d);
            } else if d == Direction::Up {
                assert(pool@[1] == d);
            } else if d == Direction::Right {
                assert(pool@[2] == d);
            } else {
                assert(pool@[3] == d);
            }
        }
    }
    let mut v: Vec<Direction> = Vec::new();
    while pool.len() > 0
        invariant
            pool@.len() + v@.len() == 4,
            forall|d: Direction| pool@.contains(d) || #[trigger] v@.contains(d),
        decreases pool@.len(),
    {
        let j = rng.gen_below(pool.len() as u32) as usize;
        let ghost pool0 = pool@;
        let d = pool.remove(j);
        let ghost v0 = v@;
        v.push(d);
        assert forall|d2: Direction| pool@.contains(d2) || #[trigger] v@.contains(d2) by {
            if pool0.contains(d2) {
                let k = choose|k: int| 0 <= k < pool0.len() && #[trigger] pool0[k] == d2;
                if k < j {
                    assert(pool@[k] == d2);
                } else if k > j {
                    assert(pool@[k - 1] == d2);
                } else {
                    assert(v@[v@.len() - 1] == d2);
                }
            } else {
                assert(v0.contains(d2));
                let k = choose|k: int| 0 <= k < v0.len() && #[trigger] v0[k] == d2;
                assert(v@[k] == d2);
            }
        }
    }
    v
}

/// A uniformly random border cell, sampled edge by edge so that no corner
/// is reachable from two of the four edge groups.
fn choose_random_border_cell(width: u32, height: u32, rng: &mut MazeRng) -> (r: (u32, u32))
    requires
        1 <= width,
        1 <= height,
    ensures
        r.0 < width,
        r.1 < height,
        r.0 == 0 || r.1 == 0 || r.0 == width - 1 || r.1 == height - 1,
{
    if width == 1 && height == 1 {
        (0, 0)
    } else if height == 1 {
        (rng.gen_below(width), 0)
    } else if width == 1 {
        (0, rng.gen_below(height))
    } else {
        if rng.gen_coin() {
            if rng.gen_coin() {
                (rng.gen_below(width - 1), 0)
            } else {
                (1 + rng.gen_below(width - 1), height - 1)
            }
        } else {
            if rng.gen_coin() {
                (0, 1 + rng.gen_below(height - 1))
            } else {
                (width - 1, rng.gen_below(height - 1))
            }
        }
    }
}

impl Maze {
    /// Carves one randomly chosen outward border wall of `(x, y)` that is
    /// still standing. The caller guarantees one exists; on a well-formed
    /// positive-size grid a border cell always has one until carved.
    #[verifier::loop_isolation(false)]
    fn carve_border_cell(&mut self, x: u32, y: u32, rng: &mut MazeRng)
        requires
            old(self).wf(),
            old(self).in_bounds(x as int, y as int),
            has_outward_wall(old(self), x as int, y as int),
        ensures
            final(self).wf(),
            final(self).same_dims(old(self)),
            exists|d: Direction|
                #[trigger] carved_one_border(old(self), final(self), x as int, y as int, d),
    {
        let mut candidates: Vec<Direction> = Vec::new();
        let mut k: usize = 0;
        let dirs = [Direction::Left, Direction::Up, Direction::Right, Direction::Down];
        while k < 4
            invariant
                self == old(self),
                k <= 4,
                candidates@.len() <= k,
                forall|i: int|
                    0 <= i < candidates@.len() ==> old(self).outward(
                        x as int,
                        y as int,
                        #[trigger] candidates@[i],
                    ) && old(self).wall_at(x as int, y as int, candidates@[i]),
                forall|d: Direction|
                    #[trigger] old(self).outward(x as int, y as int, d) && old(self).wall_at(
                        x as int,
                        y as int,
                        d,
                    ) && dirs@.take(k as int).contains(d) ==> candidates@.contains(d),
            decreases 4 - k,
        {
            let d = dirs[k];
            let ghost cands0 = candidates@;
            let adj = self.get_adjacent_cell(x, y, d);
            let standing = self.has_wall(x, y, d);
            if adj.is_none() && standing {
                candidates.push(d);
            }
            proof {
                assert forall|d2: Direction|
                    old(self).outward(x as int, y as int, d2) && old(self).wall_at(
                        x as int,
                        y as int,
                        d2,
                    ) && dirs@.take(k + 1).contains(d2) implies candidates@.contains(d2) by {
                    if d2 == dirs@[k as int] {
                        assert(candidates@ == cands0.push(d));
                        assert(candidates@[candidates@.len() - 1] == d2);
                    } else {
                        assert(dirs@.take(k as int).contains(d2)) by {
                            let i = choose|i: int|
                                0 <= i < k + 1 && #[trigger] dirs@.take(k + 1)[i] == d2;
                            assert(dirs@.take(k as int)[i] == d2);
                        }
                        assert(cands0.contains(d2));
                        let i = choose|i: int| 0 <= i < cands0.len() && #[trigger] cands0[i] == d2;
                        assert(candidates@[i] == d2);
                    }
                }
            }
            k = k + 1;
        }
        proof {
            let dw = choose|d: Direction|
                #[trigger] old(self).outward(x as int, y as int, d) && old(self).wall_at(
                    x as int,
                    y as int,
                    d,
                );
            assert(dirs@.take(4).contains(dw)) by {
                if dw == Direction::Left {
                    assert(dirs@.take(4)[0] == dw);
                } else if dw == Direction::Up {
                    assert(dirs@.take(4)[1] == dw);
                } else if dw == Direction::Right {
                    assert(dirs@.take(4)[2] == dw);
                } else {
                    assert(dirs@.take(4)[3] == dw);
                }
            }
            assert(candidates@.contains(dw));
            assert(candidates@.len() >= 1);
        }
        let j = rng.gen_below(candidates.len() as u32) as usize;
        let d = candidates[j];
        self.set_wall(x, y, d, false);
        proof {
            assert(carved_one_border(old(self), self, x as int, y as int, d));
        }
    }
}

/// The direction that addresses the same wall slot from the neighbouring
/// cell.
pub open(crate) spec fn opposite(d: Direction) -> Direction {
    match d {
        Direction::Left => Direction::Right,
        Direction::Right => Direction::Left,
        Direction::Up => Direction::Down,
        Direction::Down => Direction::Up,
    }
}

/// The visited bitmap as a predicate on cells.
spec fn vis_pred(vis: Seq<bool>, w: int) -> spec_fn(int, int) -> bool {
    |x: int, y: int| vis_at(vis, w, x, y)
}

/// Marking one fresh cell raises the visited count by exactly one and
/// changes no other cell's mark.
proof fn lemma_vis_mark(vis1: Seq<bool>, vis2: Seq<bool>, w: int, h: int, nx: int, ny: int)
    requires
        0 <= nx < w,
        0 <= ny < h,
        vis1.len() == w * h,
        !vis_at(vis1, w, nx, ny),
        vis2 == vis1.update(ny * w + nx, true),
    ensures
        vis2.len() == w * h,
        vis_at(vis2, w, nx, ny),
        forall|x: int, y: int|
            0 <= x < w && 0 <= y < h && !(x == nx && y == ny) ==> #[trigger] vis_at(vis2, w, x, y)
                == vis_at(vis1, w, x, y),
        count_grid(vis_pred(vis2, w), h, w) == count_grid(vis_pred(vis1, w), h, w) + 1,
{
    lemma_row_major_bound(ny, nx, h, w);
    assert forall|x: int, y: int|
        0 <= x < w && 0 <= y < h && !(x == nx && y == ny) implies #[trigger] vis_at(vis2, w, x, y)
        == vis_at(vis1, w, x, y) by {
        lemma_row_major_bound(y, x, h, w);
        if y * w + x == ny * w + nx {
            lemma_row_major_inj(y, x, ny, nx, w);
        }
    }
    lemma_count_grid_update(vis_pred(vis1, w), vis_pred(vis2, w), h, w, nx, ny);
}

/// Setting one slot to `false` adds no wall.
proof fn proof_no_new_walls(m1: &Maze, m2: &Maze)
    requires
        m2.same_dims(m1),
        m2.vw().len() == m1.vw().len(),
        m2.hw().len() == m1.hw().len(),
        forall|i: int|
            0 <= i < m2.vw().len() ==> m2.vw()[i] == m1.vw()[i] || #[trigger] m2.vw()[i] == false,
        forall|i: int|
            0 <= i < m2.hw().len() ==> m2.hw()[i] == m1.hw()[i] || #[trigger] m2.hw()[i] == false,
    ensures
        no_new_walls(m1, m2),
{
}

/// Carving one outward border wall leaves every internal wall, and every
/// other border wall, exactly as it was.
proof fn lemma_border_carve_frame(m1: &Maze, m2: &Maze, x: int, y: int, d: Direction)
    requires
        m1.wf(),
        m1.in_bounds(x, y),
        m2.same_dims(m1),
        carved_one_border(m1, m2, x, y, d),
    ensures
        m2.wf(),
        m2.wall_at(x, y, d) == false,
        no_new_walls(m1, m2),
        carved_internal(m2) == carved_internal(m1),
        forall|x2: int, y2: int, d2: Direction|
            m1.in_bounds(x2, y2) && m1.outward(x2, y2, d2) && !(x2 == x && y2 == y && d2 == d)
                ==> #[trigger] m2.wall_at(x2, y2, d2) == m1.wall_at(x2, y2, d2),
        forall|x2: int, y2: int, d2: Direction|
            m1.in_bounds(x2, y2) && !m1.outward(x2, y2, d2) ==> #[trigger] m2.wall_at(x2, y2, d2)
                == m1.wall_at(x2, y2, d2),
{
    m1.lemma_slot_in_range(x, y, d);
    lemma_set_wall_frame(m1, m2, x, y, d, false);
    proof_no_new_walls(m1, m2);
    assert forall|x2: int, y2: int, d2: Direction|
        m1.in_bounds(x2, y2) && m1.outward(x2, y2, d2) && !(x2 == x && y2 == y && d2 == d) implies #[trigger] m2.wall_at(
        x2,
        y2,
        d2,
    ) == m1.wall_at(x2, y2, d2) by {
        assert(!(is_vertical(d2) == is_vertical(d) && slot_x(x2, d2) == slot_x(x, d) && slot_y(
            y2,
            d2,
        ) == slot_y(y, d)));
    }
    assert forall|x2: int, y2: int, d2: Direction|
        m1.in_bounds(x2, y2) && !m1.outward(x2, y2, d2) implies #[trigger] m2.wall_at(x2, y2, d2)
        == m1.wall_at(x2, y2, d2) by {
        assert(!(is_vertical(d2) == is_vertical(d) && slot_x(x2, d2) == slot_x(x, d) && slot_y(
            y2,
            d2,
        ) == slot_y(y, d)));
    }
    let h = m1.spec_height();
    let w = m1.spec_width();
    assert forall|x2: int, y2: int| 0 <= x2 < w - 1 && 0 <= y2 < h implies #[trigger] (right_open(
        m2,
    ))(x2, y2) == (right_open(m1))(x2, y2) by {
        assert(m2.wall_at(x2, y2, Direction::Right) == m1.wall_at(x2, y2, Direction::Right));
    }
    lemma_count_grid_agree(right_open(m1), right_open(m2), h, w - 1);
    assert forall|x2: int, y2: int| 0 <= x2 < w && 0 <= y2 < h - 1 implies #[trigger] (down_open(
        m2,
    ))(x2, y2) == (down_open(m1))(x2, y2) by {
        assert(m2.wall_at(x2, y2, Direction::Down) == m1.wall_at(x2, y2, Direction::Down));
    }
    lemma_count_grid_agree(down_open(m1), down_open(m2), h - 1, w);
}

/// Carving the wall between two adjacent in-grid cells raises the internal
/// carve count by one, touches no border wall, and changes no other
/// internal wall; the carved slot reads as carved from both sides.
proof fn lemma_internal_carve_frame(m1: &Maze, m2: &Maze, x: int, y: int, d: Direction)
    requires
        m1.wf(),
        m1.in_bounds(x, y),
        !m1.outward(x, y, d),
        m1.wall_at(x, y, d),
        m2.same_dims(m1),
        if is_vertical(d) {
            m2.vw() == m1.vw().update(m1.slot_index(x, y, d), false) && m2.hw() == m1.hw()
        } else {
            m2.hw() == m1.hw().update(m1.slot_index(x, y, d), false) && m2.vw() == m1.vw()
        },
    ensures
        m2.wf(),
        m2.wall_at(x, y, d) == false,
        m2.wall_at(Maze::step_x(x, d), Maze::step_y(y, d), opposite(d)) == false,
        no_new_walls(m1, m2),
        carved_internal(m2) == carved_internal(m1) + 1,
        forall|x2: int, y2: int, d2: Direction|
            m1.in_bounds(x2, y2) && m1.outward(x2, y2, d2) ==> #[trigger] m2.wall_at(x2, y2, d2)
                == m1.wall_at(x2, y2, d2),
        forall|x2: int, y2: int, d2: Direction|
            m1.in_bounds(x2, y2) && !m1.outward(x2, y2, d2) && !((x2 == x && y2 == y && d2 == d)
                || (x2 == Maze::step_x(x, d) && y2 == Maze::step_y(y, d) && d2 == opposite(d)))
                ==> #[trigger] m2.wall_at(x2, y2, d2) == m1.wall_at(x2, y2, d2),
{
    m1.lemma_slot_in_range(x, y, d);
    lemma_set_wall_frame(m1, m2, x, y, d, false);
    proof_no_new_walls(m1, m2);
    assert forall|x2: int, y2: int, d2: Direction|
        m1.in_bounds(x2, y2) && m1.outward(x2, y2, d2) implies #[trigger] m2.wall_at(x2, y2, d2)
        == m1.wall_at(x2, y2, d2) by {
        assert(!(is_vertical(d2) == is_vertical(d) && slot_x(x2, d2) == slot_x(x, d) && slot_y(
            y2,
            d2,
        ) == slot_y(y, d)));
    }
    assert forall|x2: int, y2: int, d2: Direction|
        m1.in_bounds(x2, y2) && !m1.outward(x2, y2, d2) && !((x2 == x && y2 == y && d2 == d) || (x2
            == Maze::step_x(x, d) && y2 == Maze::step_y(y, d) && d2 == opposite(d))) implies #[trigger] m2.wall_at(
        x2,
        y2,
        d2,
    ) == m1.wall_at(x2, y2, d2) by {
        assert(!(is_vertical(d2) == is_vertical(d) && slot_x(x2, d2) == slot_x(x, d) && slot_y(
            y2,
            d2,
        ) == slot_y(y, d)));
    }
    let h = m1.spec_height();
    let w = m1.spec_width();
    if is_vertical(d) {
        let a = slot_x(x, d) - 1;
        let b = y;
        assert(0 <= a < w - 1 && 0 <= b < h);
        assert(!(right_open(m1))(a, b));
        assert((right_open(m2))(a, b));
        assert forall|x2: int, y2: int|
            0 <= x2 < w - 1 && 0 <= y2 < h && !(x2 == a && y2 == b) implies #[trigger] (right_open(
            m1,
        ))(x2, y2) == (right_open(m2))(x2, y2) by {
            assert(m2.wall_at(x2, y2, Direction::Right) == m1.wall_at(x2, y2, Direction::Right));
        }
        lemma_count_grid_update(right_open(m1), right_open(m2), h, w - 1, a, b);
        assert forall|x2: int, y2: int|
            0 <= x2 < w && 0 <= y2 < h - 1 implies #[trigger] (down_open(m1))(x2, y2) == (down_open(
            m2,
        ))(x2, y2) by {
            assert(m2.wall_at(x2, y2, Direction::Down) == m1.wall_at(x2, y2, Direction::Down));
        }
        lemma_count_grid_agree(down_open(m1), down_open(m2), h - 1, w);
    } else {
        let a = x;
        let b = slot_y(y, d) - 1;
        assert(0 <= a < w && 0 <= b < h - 1);
        assert(!(down_open(m1))(a, b));
        assert((down_open(m2))(a, b));
        assert forall|x2: int, y2: int|
            0 <= x2 < w && 0 <= y2 < h - 1 && !(x2 == a && y2 == b) implies #[trigger] (down_open(
            m1,
        ))(x2, y2) == (down_open(m2))(x2, y2) by {
            assert(m2.wall_at(x2, y2, Direction::Down) == m1.wall_at(x2, y2, Direction::Down));
        }
        lemma_count_grid_update(down_open(m1), down_open(m2), h - 1, w, a, b);
        assert forall|x2: int, y2: int|
            0 <= x2 < w - 1 && 0 <= y2 < h implies #[trigger] (right_open(m1))(x2, y2) == (
        right_open(m2))(x2, y2) by {
            assert(m2.wall_at(x2, y2, Direction::Right) == m1.wall_at(x2, y2, Direction::Right));
        }
        lemma_count_grid_agree(right_open(m1), right_open(m2), h, w - 1);
    }
}

/// A grid predicate true at up to two given distinct points and nowhere
/// else counts exactly those points.
proof fn lemma_count_two(
    f: spec_fn(int, int) -> bool,
    rows: int,
    cols: int,
    p1x: int,
    p1y: int,
    p1in: bool,
    p2x: int,
    p2y: int,
    p2in: bool,
)
    requires
        p1in ==> 0 <= p1x < cols && 0 <= p1y < rows,
        p2in ==> 0 <= p2x < cols && 0 <= p2y < rows,
        p1in && p2in ==> !(p1x == p2x && p1y == p2y),
        forall|x: int, y: int|
            0 <= x < cols && 0 <= y < rows ==> (#[trigger] f(x, y) <==> ((p1in && x == p1x && y
                == p1y) || (p2in && x == p2x && y == p2y))),
    ensures
        count_grid(f, rows, cols) == (if p1in {
            1int
        } else {
            0int
        }) + (if p2in {
            1int
        } else {
            0int
        }),
{
    let z = (|x: int, y: int| false);
    let g1 = (|x: int, y: int| p1in && x == p1x && y == p1y);
    lemma_count_grid_zero(z, rows, cols);
    if p1in {
        lemma_count_grid_update(z, g1, rows, cols, p1x, p1y);
    } else {
        lemma_count_grid_agree(z, g1, rows, cols);
    }
    if p2in {
        lemma_count_grid_update(g1, f, rows, cols, p2x, p2y);
    } else {
        lemma_count_grid_agree(g1, f, rows, cols);
    }
}

/// When exactly two distinct border walls are carved, the border carve
/// count is two.
proof fn lemma_border_two(
    m: &Maze,
    x1: int,
    y1: int,
    d1: Direction,
    x2: int,
    y2: int,
    d2: Direction,
)
    requires
        m.wf(),
        m.in_bounds(x1, y1),
        m.in_bounds(x2, y2),
        m.outward(x1, y1, d1),
        m.outward(x2, y2, d2),
        !(x1 == x2 && y1 == y2 && d1 == d2),
        forall|x: int, y: int, d: Direction|
            m.in_bounds(x, y) && m.outward(x, y, d) ==> ((#[trigger] m.wall_at(x, y, d)) == false
                <==> ((x == x1 && y == y1 && d == d1) || (x == x2 && y == y2 && d == d2))),
    ensures
        carved_border(m) == 2,
{
    let h = m.spec_height();
    let w = m.spec_width();
    lemma_count_two(
        left_border_open(m),
        h,
        1,
        0,
        y1,
        d1 == Direction::Left,
        0,
        y2,
        d2 == Direction::Left,
    );
    lemma_count_two(
        right_border_open(m),
        h,
        1,
        0,
        y1,
        d1 == Direction::Right,
        0,
        y2,
        d2 == Direction::Right,
    );
    lemma_count_two(
        top_border_open(m),
        1,
        w,
        x1,
        0,
        d1 == Direction::Up,
        x2,
        0,
        d2 == Direction::Up,
    );
    lemma_count_two(
        bottom_border_open(m),
        1,
        w,
        x1,
        0,
        d1 == Direction::Down,
        x2,
        0,
        d2 == Direction::Down,
    );
}

/// A stack sees its direction total shrink by the popped entry.
proof fn lemma_dirs_sum_nonneg(s: Seq<PendingCell>)
    ensures
        dirs_sum(s) >= 0,
    decreases s.len(),
{
    if s.len() > 0 {
        lemma_dirs_sum_nonneg(s.drop_last());
    }
}

/// A fresh border cell of a fully walled grid has an outward wall.
proof fn lemma_fresh_has_outward(m: &Maze, x: int, y: int)
    requires
        m.wf(),
        m.all_walls(),
        m.in_bounds(x, y),
        m.is_border_spec(x, y),
    ensures
        has_outward_wall(m, x, y),
{
    m.lemma_slot_in_range(x, y, Direction::Left);
    m.lemma_slot_in_range(x, y, Direction::Up);
    m.lemma_slot_in_range(x, y, Direction::Right);
    m.lemma_slot_in_range(x, y, Direction::Down);
    if x == 0 {
        assert(m.outward(x, y, Direction::Left) && m.wall_at(x, y, Direction::Left));
    } else if y == 0 {
        assert(m.outward(x, y, Direction::Up) && m.wall_at(x, y, Direction::Up));
    } else if x == m.spec_width() - 1 {
        assert(m.outward(x, y, Direction::Right) && m.wall_at(x, y, Direction::Right));
    } else {
        assert(m.outward(x, y, Direction::Down) && m.wall_at(x, y, Direction::Down));
    }
}

/// After the entrance carve, that one border wall is the only carved wall
/// anywhere in the grid.
proof fn lemma_after_entrance(m0: &Maze, m1: &Maze, sx: int, sy: int, dent: Direction)
    requires
        m0.wf(),
        m0.all_walls(),
        m0.in_bounds(sx, sy),
        m1.same_dims(m0),
        carved_one_border(m0, m1, sx, sy, dent),
    ensures
        m1.wf(),
        m1.outward(sx, sy, dent),
        carved_internal(m1) == 0,
        forall|x: int, y: int, d: Direction|
            m1.in_bounds(x, y) && !m1.outward(x, y, d) ==> #[trigger] m1.wall_at(x, y, d),
        forall|x: int, y: int, d: Direction|
            m1.in_bounds(x, y) && m1.outward(x, y, d) ==> ((#[trigger] m1.wall_at(x, y, d))
                == false <==> (x == sx && y == sy && d == dent)),
{
    lemma_border_carve_frame(m0, m1, sx, sy, dent);
    let w = m0.spec_width();
    let h = m0.spec_height();
    assert forall|x2: int, y2: int| 0 <= x2 < w - 1 && 0 <= y2 < h implies !(#[trigger] (right_open(
        m0,
    ))(x2, y2)) by {
        m0.lemma_slot_in_range(x2, y2, Direction::Right);
    }
    lemma_count_grid_zero(right_open(m0), h, w - 1);
    assert forall|x2: int, y2: int| 0 <= x2 < w && 0 <= y2 < h - 1 implies !(#[trigger] (down_open(
        m0,
    ))(x2, y2)) by {
        m0.lemma_slot_in_range(x2, y2, Direction::Down);
    }
    lemma_count_grid_zero(down_open(m0), h - 1, w);
    assert forall|x: int, y: int, d: Direction|
        m1.in_bounds(x, y) && !m1.outward(x, y, d) implies #[trigger] m1.wall_at(x, y, d) by {
        m0.lemma_slot_in_range(x, y, d);
        assert(m1.wall_at(x, y, d) == m0.wall_at(x, y, d));
    }
    assert forall|x: int, y: int, d: Direction|
        m1.in_bounds(x, y) && m1.outward(x, y, d) implies ((#[trigger] m1.wall_at(x, y, d))
        == false <==> (x == sx && y == sy && d == dent)) by {
        if !(x == sx && y == sy && d == dent) {
            m0.lemma_slot_in_range(x, y, d);
            assert(m1.wall_at(x, y, d) == m0.wall_at(x, y, d));
        }
    }
}

/// When the stack has emptied, the visited set is closed under adjacency,
/// so it covers the whole grid and its count is the full area.
#[verifier::rlimit(100)]
proof fn lemma_loop_end_coverage(m: &Maze, vis: Seq<bool>, sx: int, sy: int)
    requires
        m.wf(),
        m.in_bounds(sx, sy),
        vis.len() == m.spec_width() * m.spec_height(),
        vis_at(vis, m.spec_width(), sx, sy),
        forall|x: int, y: int|
            0 <= x < m.spec_width() && 0 <= y < m.spec_height() && #[trigger] vis_at(
                vis,
                m.spec_width(),
                x,
                y,
            ) ==> all_nb_visited(m, vis, x, y),
    ensures
        forall|x: int, y: int|
            0 <= x < m.spec_width() && 0 <= y < m.spec_height() ==> #[trigger] vis_at(
                vis,
                m.spec_width(),
                x,
                y,
            ),
        count_grid(vis_pred(vis, m.spec_width()), m.spec_height(), m.spec_width())
            == m.spec_width() * m.spec_height(),
{
    let w = m.spec_width();
    let h = m.spec_height();
    let vp = vis_pred(vis, w);
    assert forall|x: int, y: int|
        0 <= x < w && 0 <= y < h && #[trigger] vp(x, y) implies ((x + 1 < w ==> vp(x + 1, y)) && (0
        <= x - 1 ==> vp(x - 1, y)) && (y + 1 < h ==> vp(x, y + 1)) && (0 <= y - 1 ==> vp(
        x,
        y - 1,
    ))) by {
        assert(all_nb_visited(m, vis, x, y));
        assert(nb_visited(m, vis, x, y, Direction::Right));
        assert(nb_visited(m, vis, x, y, Direction::Left));
        assert(nb_visited(m, vis, x, y, Direction::Down));
        assert(nb_visited(m, vis, x, y, Direction::Up));
    }
    assert forall|tx: int, ty: int| 0 <= tx < w && 0 <= ty < h implies #[trigger] vp(tx, ty) by {
        lemma_closed_covers(w, h, vp, sx, sy, tx, ty);
    }
    assert forall|x: int, y: int| 0 <= x < w && 0 <= y < h implies #[trigger] vis_at(
        vis,
        w,
        x,
        y,
    ) by {
        assert(vp(x, y));
    }
    lemma_count_grid_all(vp, h, w);
    assert(h * w == w * h) by (nonlinear_arith);
}

/// The exit carve finishes the maze: border carve count two, internal
/// carve count untouched, and the whole grid pairwise connected.
proof fn lemma_finish(
    mloop: &Maze,
    mfin: &Maze,
    vis: Seq<bool>,
    sx: int,
    sy: int,
    dent: Direction,
    ex: int,
    ey: int,
    dext: Direction,
)
    requires
        mloop.wf(),
        mloop.in_bounds(sx, sy),
        mloop.in_bounds(ex, ey),
        mloop.outward(sx, sy, dent),
        mfin.same_dims(mloop),
        carved_one_border(mloop, mfin, ex, ey, dext),
        forall|x: int, y: int, d: Direction|
            mloop.in_bounds(x, y) && mloop.outward(x, y, d) ==> ((#[trigger] mloop.wall_at(x, y, d))
                == false <==> (x == sx && y == sy && d == dent)),
        forall|x: int, y: int|
            0 <= x < mloop.spec_width() && 0 <= y < mloop.spec_height() ==> #[trigger] vis_at(
                vis,
                mloop.spec_width(),
                x,
                y,
            ),
        forall|x: int, y: int|
            0 <= x < mloop.spec_width() && 0 <= y < mloop.spec_height() && #[trigger] vis_at(
                vis,
                mloop.spec_width(),
                x,
                y,
            ) ==> connected(mloop, sx, sy, x, y),
    ensures
        mfin.wf(),
        carved_internal(mfin) == carved_internal(mloop),
        carved_border(mfin) == 2,
        !mfin.wall_at(sx, sy, dent),
        !mfin.wall_at(ex, ey, dext),
        forall|x1: int, y1: int, x2: int, y2: int|
            mfin.in_bounds(x1, y1) && mfin.in_bounds(x2, y2) ==> #[trigger] connected(
                mfin,
                x1,
                y1,
                x2,
                y2,
            ),
{
    lemma_border_carve_frame(mloop, mfin, ex, ey, dext);
    assert(!(ex == sx && ey == sy && dext == dent));
    assert forall|x: int, y: int, d: Direction|
        mfin.in_bounds(x, y) && mfin.outward(x, y, d) implies ((#[trigger] mfin.wall_at(x, y, d))
        == false <==> ((x == sx && y == sy && d == dent) || (x == ex && y == ey && d
        == dext))) by {
        if !(x == ex && y == ey && d == dext) {
            assert(mfin.wall_at(x, y, d) == mloop.wall_at(x, y, d));
        }
    }
    lemma_border_two(mfin, sx, sy, dent, ex, ey, dext);
    assert forall|x1: int, y1: int, x2: int, y2: int|
        mfin.in_bounds(x1, y1) && mfin.in_bounds(x2, y2) implies #[trigger] connected(
        mfin,
        x1,
        y1,
        x2,
        y2,
    ) by {
        assert(vis_at(vis, mloop.spec_width(), x1, y1));
        assert(vis_at(vis, mloop.spec_width(), x2, y2));
        lemma_connected_monotone(mloop, mfin, sx, sy, x1, y1);
        lemma_connected_monotone(mloop, mfin, sx, sy, x2, y2);
        lemma_connected_sym(mfin, sx, sy, x1, y1);
        lemma_connected_trans(mfin, x1, y1, sx, sy, x2, y2);
    }
}

impl Maze {
    /// Produces a perfect maze by randomized iterative depth-first carving
    /// ("recursive backtracker"): the carved internal walls form a spanning
    /// tree of the grid graph, so every cell is reachable from every other
    /// and exactly `width * height - 1` internal walls are carved; exactly
    /// two border walls are carved, the entrance at a random border cell
    /// and the exit at the visited border cell discovered at the greatest
    /// path depth.
    #[verifier::rlimit(100)]
    pub fn generate_perfect(width: u32, height: u32, rng: &mut MazeRng) -> (m: Maze)
        requires
            1 <= width,
            1 <= height,
            (width + 1) * (height + 1) <= 0x4000_0000,
        ensures
            m.wf(),
            m.spec_width() == width as int,
            m.spec_height() == height as int,
            forall|x1: int, y1: int, x2: int, y2: int|
                m.in_bounds(x1, y1) && m.in_bounds(x2, y2) ==> #[trigger] connected(
                    &m,
                    x1,
                    y1,
                    x2,
                    y2,
                ),
            carved_internal(&m) == width * height - 1,
            carved_border(&m) == 2,
            width * height > 1 ==> exists|x1: int, y1: int, d1: Direction, x2: int, y2: int, d2: Direction|
                !(x1 == x2 && y1 == y2) && m.in_bounds(x1, y1) && m.in_bounds(x2, y2) && m.outward(
                    x1,
                    y1,
                    d1,
                ) && m.outward(x2, y2, d2) && !(#[trigger] m.wall_at(x1, y1, d1)) && !(
                #[trigger] m.wall_at(x2, y2, d2)),
    {
        proof {
            assert(width * height <= 0x4000_0000 && width * height >= 1) by (nonlinear_arith)
                requires
                    1 <= width,
                    1 <= height,
                    (width + 1) * (height + 1) <= 0x4000_0000,
            ;
        }
        let mut maze = Maze::new(width, height);
        let gw: Ghost<int> = Ghost(width as int);
        let gh: Ghost<int> = Ghost(height as int);
        let (start_x, start_y) = choose_random_border_cell(width, height, rng);
        let ghost sxi = start_x as int;
        let ghost syi = start_y as int;
        let ghost m0 = maze;
        proof {
            assert(maze.is_border_spec(sxi, syi));
            lemma_fresh_has_outward(&maze, sxi, syi);
        }
        maze.carve_border_cell(start_x, start_y, rng);
        let ghost dent = choose|d: Direction| carved_one_border(&m0, &maze, sxi, syi, d);
        proof {
            lemma_after_entrance(&m0, &maze, sxi, syi, dent);
        }
        let mut visited = repeat_bool((width * height) as usize, false);
        let ghost vempty = visited@;
        proof {
            assert forall|x2: int, y2: int| 0 <= x2 < gw@ && 0 <= y2 < gh@ implies !(
            #[trigger] (vis_pred(vempty, gw@))(x2, y2)) by {
                lemma_row_major_bound(y2, x2, gh@, gw@);
            }
            lemma_count_grid_zero(vis_pred(vempty, gw@), gh@, gw@);
            lemma_row_major_bound(syi, sxi, gh@, gw@);
        }
        visited.set((start_y * width + start_x) as usize, true);
        proof {
            lemma_vis_mark(vempty, visited@, gw@, gh@, sxi, syi);
        }
        let mut visited_count: u32 = 1;
        let startdirs = shuffled_directions(rng);
        let mut path: Vec<PendingCell> = Vec::new();
        path.push(PendingCell { x: start_x, y: start_y, directions: startdirs });
        let mut exit_x = start_x;
        let mut exit_y = start_y;
        let mut exit_dist: u64 = 0;
        proof {
            lemma_connected_refl(&maze, sxi, syi);
            assert(dirs_sum(Seq::<PendingCell>::empty()) == 0);
            assert(path@.drop_last() =~= Seq::<PendingCell>::empty());
            assert(dirs_sum(path@.drop_last()) == 0);
            assert(path@.last().directions@.len() == 4);
            assert(dirs_sum(path@) == 4);
            assert(path@[0].x == start_x && path@[0].y == start_y);
            assert forall|x: int, y: int|
                0 <= x < gw@ && 0 <= y < gh@ && #[trigger] vis_at(visited@, gw@, x, y) implies
                on_stack(path@, x, y) || all_nb_visited(&maze, visited@, x, y) by {
                if x == sxi && y == syi {
                    assert(path@[0].x == x && path@[0].y == y);
                    assert(on_stack(path@, x, y));
                } else {
                    lemma_row_major_bound(y, x, gh@, gw@);
                    assert(!vis_at(vempty, gw@, x, y));
                    assert(!vis_at(visited@, gw@, x, y));
                }
            }
            assert forall|x: int, y: int|
                0 <= x < gw@ && 0 <= y < gh@ && #[trigger] vis_at(visited@, gw@, x, y) implies
                connected(&maze, sxi, syi, x, y) by {
                if !(x == sxi && y == syi) {
                    lemma_row_major_bound(y, x, gh@, gw@);
                    assert(!vis_at(vempty, gw@, x, y));
                    assert(!vis_at(visited@, gw@, x, y));
                }
            }
        }
        while path.len() > 0
            invariant
                gw@ == width as int,
                gh@ == height as int,
                sxi == start_x as int,
                syi == start_y as int,
                start_x < width,
                start_y < height,
                gw@ * gh@ <= 0x4000_0000,
                maze.wf(),
                maze.spec_width() == gw@,
                maze.spec_height() == gh@,
                visited@.len() == gw@ * gh@,
                vis_at(visited@, gw@, sxi, syi),
                visited_count as int == count_grid(vis_pred(visited@, gw@), gh@, gw@),
                1 <= visited_count as int <= gw@ * gh@,
                forall|i: int|
                    0 <= i < path@.len() ==> (#[trigger] path@[i].x as int) < gw@
                        && (path@[i].y as int) < gh@ && vis_at(
                        visited@,
                        gw@,
                        path@[i].x as int,
                        path@[i].y as int,
                    ),
                forall|i: int, d: Direction|
                    0 <= i < path@.len() && !(#[trigger] path@[i].directions@.contains(d))
                        ==> nb_visited(&maze, visited@, path@[i].x as int, path@[i].y as int, d),
                forall|x: int, y: int|
                    0 <= x < gw@ && 0 <= y < gh@ && #[trigger] vis_at(visited@, gw@, x, y)
                        ==> on_stack(path@, x, y) || all_nb_visited(&maze, visited@, x, y),
                forall|x: int, y: int, d: Direction|
                    maze.in_bounds(x, y) && !maze.outward(x, y, d) && !(#[trigger] maze.wall_at(
                        x,
                        y,
                        d,
                    )) ==> vis_at(visited@, gw@, x, y) && vis_at(
                        visited@,
                        gw@,
                        Maze::step_x(x, d),
                        Maze::step_y(y, d),
                    ),
                forall|x: int, y: int, d: Direction|
                    maze.in_bounds(x, y) && maze.outward(x, y, d) ==> ((#[trigger] maze.wall_at(
                        x,
                        y,
                        d,
                    )) == false <==> (x == sxi && y == syi && d == dent)),
                forall|x: int, y: int|
                    0 <= x < gw@ && 0 <= y < gh@ && #[trigger] vis_at(visited@, gw@, x, y)
                        ==> connected(&maze, sxi, syi, x, y),
                carved_internal(&maze) == visited_count as int - 1,
                (exit_x as int) < gw@,
                (exit_y as int) < gh@,
                exit_dist == 0 ==> exit_x == start_x && exit_y == start_y,
                exit_dist > 0 ==> maze.is_border_spec(exit_x as int, exit_y as int) && !(exit_x
                    == start_x && exit_y == start_y),
                forall|x: int, y: int|
                    0 <= x < gw@ && 0 <= y < gh@ && #[trigger] vis_at(visited@, gw@, x, y)
                        && maze.is_border_spec(x, y) && !(x == sxi && y == syi) ==> exit_dist > 0,
            decreases 5 * (gw@ * gh@ - visited_count as int) + dirs_sum(path@) + path@.len(),
        {
            let ghost path0 = path@;
            let ghost maze0 = maze;
            let ghost vis0 = visited@;
            proof {
                lemma_dirs_sum_nonneg(path0.drop_last());
            }
            let mut cell = path.pop().unwrap();
            if cell.directions.len() == 0 {
                proof {
                    assert(path0.drop_last() =~= path@);
                    assert forall|x: int, y: int|
                        0 <= x < gw@ && 0 <= y < gh@ && #[trigger] vis_at(visited@, gw@, x, y)
                            implies on_stack(path@, x, y) || all_nb_visited(
                        &maze,
                        visited@,
                        x,
                        y,
                    ) by {
                        if on_stack(path0, x, y) {
                            let i = choose|i: int|
                                0 <= i < path0.len() && #[trigger] path0[i].x == x && path0[i].y
                                    == y;
                            if i < path0.len() - 1 {
                                assert(path@[i].x == x && path@[i].y == y);
                            } else {
                                assert forall|d: Direction|
                                    #[trigger] nb_visited(&maze, visited@, x, y, d) by {
                                    assert(!path0[path0.len() - 1].directions@.contains(d));
                                }
                            }
                        }
                    }
                }
            } else {
                let ghost dirs0 = cell.directions@;
                let d = cell.directions.pop().unwrap();
                let x = cell.x;
                let y = cell.y;
                let ghost xi = x as int;
                let ghost yi = y as int;
                path.push(cell);
                let ghost pmid = path@;
                proof {
                    assert(pmid.drop_last() =~= path0.drop_last());
                    assert(dirs_sum(pmid) == dirs_sum(path0) - 1);
                    assert forall|a: int, b: int| on_stack(path0, a, b) implies on_stack(
                        pmid,
                        a,
                        b,
                    ) by {
                        let i = choose|i: int|
                            0 <= i < path0.len() && #[trigger] path0[i].x == a && path0[i].y == b;
                        assert(pmid[i].x == a && pmid[i].y == b);
                    }
                }
                let adj = maze.get_adjacent_cell(x, y, d);
                let mut carved = false;
                let ghost mut nxi: int = 0;
                let ghost mut nyi: int = 0;
                match adj {
                    None => {
                        proof {
                            assert(nb_visited(&maze, visited@, xi, yi, d));
                        }
                    },
                    Some(nb) => {
                        let (nx, ny) = nb;
                        proof {
                            nxi = nx as int;
                            nyi = ny as int;
                            lemma_row_major_bound(nyi, nxi, gh@, gw@);
                            assert(ny * width + nx < 0x4000_0000) by (nonlinear_arith)
                                requires
                                    (nyi * gw@ + nxi) < gh@ * gw@,
                                    nyi == ny as int,
                                    nxi == nx as int,
                                    gw@ == width as int,
                                    gh@ == height as int,
                                    gw@ * gh@ <= 0x4000_0000,
                            ;
                        }
                        let vidx = (ny * width + nx) as usize;
                        if visited[vidx] {
                            proof {
                                assert(vis_at(visited@, gw@, nxi, nyi));
                                assert(nb_visited(&maze, visited@, xi, yi, d));
                            }
                        } else {
                            carved = true;
                            visited.set(vidx, true);
                            proof {
                                lemma_vis_mark(vis0, visited@, gw@, gh@, nxi, nyi);
                                lemma_count_grid_le(vis_pred(visited@, gw@), gh@, gw@);
                                assert(gh@ * gw@ == gw@ * gh@) by (nonlinear_arith);
                            }
                            visited_count = visited_count + 1;
                            proof {
                                // the wall to the fresh cell is still standing
                                assert(maze.wall_at(xi, yi, d));
                            }
                            let ghost mbefore = maze;
                            maze.set_wall(x, y, d, false);
                            proof {
                                lemma_internal_carve_frame(&mbefore, &maze, xi, yi, d);
                            }
                            let newdirs = shuffled_directions(rng);
                            path.push(PendingCell { x: nx, y: ny, directions: newdirs });
                            proof {
                                assert(path@.drop_last() =~= pmid);
                                // connectivity reaches the fresh cell
                                lemma_connected_monotone(&mbefore, &maze, sxi, syi, xi, yi);
                                assert(carved_edge(&maze, xi, yi, nxi, nyi));
                                lemma_connected_step(&maze, sxi, syi, xi, yi, nxi, nyi);
                                assert forall|a: int, b: int|
                                    0 <= a < gw@ && 0 <= b < gh@ && #[trigger] vis_at(
                                        visited@,
                                        gw@,
                                        a,
                                        b,
                                    ) implies connected(&maze, sxi, syi, a, b) by {
                                    if !(a == nxi && b == nyi) {
                                        assert(vis_at(vis0, gw@, a, b));
                                        lemma_connected_monotone(&mbefore, &maze, sxi, syi, a, b);
                                    }
                                }
                            }
                            let distance = path.len() as u64;
                            if maze.is_border_cell(nx, ny) {
                                if distance > exit_dist {
                                    exit_x = nx;
                                    exit_y = ny;
                                    exit_dist = distance;
                                }
                            }
                            proof {
                                // every carved internal wall still joins two
                                // visited cells
                                assert forall|a: int, b: int, d2: Direction|
                                    maze.in_bounds(a, b) && !maze.outward(a, b, d2) && !(
                                    #[trigger] maze.wall_at(a, b, d2)) implies vis_at(
                                    visited@,
                                    gw@,
                                    a,
                                    b,
                                ) && vis_at(
                                    visited@,
                                    gw@,
                                    Maze::step_x(a, d2),
                                    Maze::step_y(b, d2),
                                ) by {
                                    if a == xi && b == yi && d2 == d {
                                        assert(vis_at(visited@, gw@, nxi, nyi));
                                    } else if a == nxi && b == nyi && d2 == opposite(d) {
                                        assert(vis_at(visited@, gw@, xi, yi));
                                    } else {
                                        assert(maze.wall_at(a, b, d2) == mbefore.wall_at(
                                            a,
                                            b,
                                            d2,
                                        ));
                                    }
                                }
                            }
                        }
                    },
                }
                proof {
                    // the stack invariants hold again in every branch
                    let pfin = path@;
                    assert forall|a: int, b: int| on_stack(pmid, a, b) implies on_stack(
                        pfin,
                        a,
                        b,
                    ) by {
                        let i = choose|i: int|
                            0 <= i < pmid.len() && #[trigger] pmid[i].x == a && pmid[i].y == b;
                        assert(pfin[i].x == a && pfin[i].y == b);
                    }
                    assert forall|i: int| 0 <= i < pfin.len() implies ((#[trigger] pfin[i].x as int)
                        < gw@ && (pfin[i].y as int) < gh@ && vis_at(
                        visited@,
                        gw@,
                        pfin[i].x as int,
                        pfin[i].y as int,
                    )) by {
                        if i < path0.len() {
                            if i < path0.len() - 1 {
                                assert(pfin[i] == path0[i]);
                            } else {
                                assert(pfin[i].x == x && pfin[i].y == y);
                            }
                            assert(vis_at(vis0, gw@, pfin[i].x as int, pfin[i].y as int));
                            if carved && !(pfin[i].x as int == nxi && pfin[i].y as int == nyi) {
                                assert(vis_at(visited@, gw@, pfin[i].x as int, pfin[i].y as int)
                                    == vis_at(vis0, gw@, pfin[i].x as int, pfin[i].y as int));
                            }
                        } else {
                            assert(carved && pfin[i].x as int == nxi && pfin[i].y as int == nyi);
                        }
                    }
                    assert forall|i: int, d2: Direction|
                        0 <= i < pfin.len() && !(#[trigger] pfin[i].directions@.contains(d2))
                            implies nb_visited(
                        &maze,
                        visited@,
                        pfin[i].x as int,
                        pfin[i].y as int,
                        d2,
                    ) by {
                        if i < path0.len() - 1 {
                            assert(pfin[i] == path0[i]);
                            assert(nb_visited(&maze0, vis0, pfin[i].x as int, pfin[i].y as int, d2));
                        } else if i == path0.len() - 1 {
                            // the re-pushed cell, with `d` newly removed
                            if d2 == d {
                                assert(nb_visited(&maze, visited@, xi, yi, d));
                            } else {
                                assert(!dirs0.contains(d2)) by {
                                    if dirs0.contains(d2) {
                                        let k = choose|k: int|
                                            0 <= k < dirs0.len() && #[trigger] dirs0[k] == d2;
                                        assert(k < dirs0.len() - 1);
                                        assert(pfin[i].directions@[k] == d2);
                                    }
                                }
                                assert(nb_visited(&maze0, vis0, xi, yi, d2));
                            }
                        } else {
                            // the freshly pushed cell still has all four
                            assert(pfin[i].directions@.contains(d2));
                        }
                    }
                    assert forall|a: int, b: int|
                        0 <= a < gw@ && 0 <= b < gh@ && #[trigger] vis_at(visited@, gw@, a, b)
                            implies on_stack(pfin, a, b) || all_nb_visited(
                        &maze,
                        visited@,
                        a,
                        b,
                    ) by {
                        if a == nxi && b == nyi && carved {
                            assert(pfin[pfin.len() - 1].x == a && pfin[pfin.len() - 1].y == b);
                        } else {
                            assert(vis_at(vis0, gw@, a, b));
                            if on_stack(path0, a, b) {
                                assert(on_stack(pmid, a, b));
                            } else {
                                assert(all_nb_visited(&maze0, vis0, a, b));
                                assert forall|d2: Direction|
                                    #[trigger] nb_visited(&maze, visited@, a, b, d2) by {
                                    assert(nb_visited(&maze0, vis0, a, b, d2));
                                }
                            }
                        }
                    }
                }
            }
        }
        // the whole grid has been visited
        proof {
            assert forall|x: int, y: int|
                0 <= x < gw@ && 0 <= y < gh@ && #[trigger] vis_at(visited@, gw@, x, y) implies
                all_nb_visited(&maze, visited@, x, y) by {
                assert(!on_stack(path@, x, y));
            }
            lemma_loop_end_coverage(&maze, visited@, sxi, syi);
            assert(carved_internal(&maze) == gw@ * gh@ - 1);
        }
        // carve the exit
        let ghost mloop = maze;
        let ghost mut dexw: Direction = Direction::Left;
        proof {
            let exi = exit_x as int;
            let eyi = exit_y as int;
            if width > 1 || height > 1 {
                assert(vis_at(visited@, gw@, 0, 0));
                assert(vis_at(visited@, gw@, gw@ - 1, gh@ - 1));
                if !(sxi == 0 && syi == 0) {
                    assert(maze.is_border_spec(0, 0));
                    assert(exit_dist > 0);
                } else {
                    assert(maze.is_border_spec(gw@ - 1, gh@ - 1));
                    assert(!(gw@ - 1 == sxi && gh@ - 1 == syi));
                    assert(exit_dist > 0);
                }
                if exi == 0 {
                    dexw = Direction::Left;
                } else if eyi == 0 {
                    dexw = Direction::Up;
                } else if exi == gw@ - 1 {
                    dexw = Direction::Right;
                } else {
                    dexw = Direction::Down;
                }
                assert(maze.outward(exi, eyi, dexw));
                assert(maze.wall_at(exi, eyi, dexw));
            } else {
                // a single cell: the exit is the start, on another side
                assert(exit_dist == 0);
                if dent != Direction::Left {
                    dexw = Direction::Left;
                } else {
                    dexw = Direction::Up;
                }
                assert(maze.outward(exi, eyi, dexw));
                assert(maze.wall_at(exi, eyi, dexw));
            }
            assert(has_outward_wall(&maze, exi, eyi));
        }
        maze.carve_border_cell(exit_x, exit_y, rng);
        let ghost dext = choose|d: Direction|
            carved_one_border(&mloop, &maze, exit_x as int, exit_y as int, d);
        proof {
            lemma_finish(
                &mloop,
                &maze,
                visited@,
                sxi,
                syi,
                dent,
                exit_x as int,
                exit_y as int,
                dext,
            );
            // with more than one cell, entrance and exit sit on two
            // distinct border cells
            if width > 1 || height > 1 {
                let exi = exit_x as int;
                let eyi = exit_y as int;
                assert(vis_at(visited@, gw@, 0, 0));
                assert(vis_at(visited@, gw@, gw@ - 1, gh@ - 1));
                if !(sxi == 0 && syi == 0) {
                    assert(mloop.is_border_spec(0, 0));
                    assert(exit_dist > 0);
                } else {
                    assert(mloop.is_border_spec(gw@ - 1, gh@ - 1));
                    assert(!(gw@ - 1 == sxi && gh@ - 1 == syi));
                    assert(exit_dist > 0);
                }
                assert(!(exi == sxi && eyi == syi));
                assert(maze.outward(sxi, syi, dent));
                assert(maze.outward(exi, eyi, dext));
                assert(!maze.wall_at(sxi, syi, dent) && !maze.wall_at(exi, eyi, dext));
                assert(width * height > 1) by (nonlinear_arith)
                    requires
                        1 <= width,
                        1 <= height,
                        width > 1 || height > 1,
                ;
            } else {
                assert(width * height == 1);
            }
        }
        maze
    }
}

} // verus!
