//! The grid model: wall storage for a rectangular maze.
//!
//! Walls are held in two flat row-major vectors. A wall is addressed by a
//! cell and a direction; the Left wall of `(x, y)` and the Right wall of
//! `(x - 1, y)` alias the same slot, and likewise Up/Down. Carving from one
//! side is therefore visible from the neighbouring cell's opposite side.

use vstd::prelude::*;

verus! {

/// Selector into the aliased wall storage.
#[derive(Copy, Clone, Debug, PartialEq, Eq, Structural)]
pub enum Direction {
    Left,
    Up,
    Right,
    Down,
}

/// The maze's persistent state: dimensions plus one flag per potential wall.
pub struct Maze {
    pub(crate) width: u32,
    pub(crate) height: u32,
    /// One entry per wall to the left of each cell, including the outer
    /// right border: `(width + 1) * height` entries, row-major.
    pub(crate) vertical_walls: Vec<bool>,
    /// One entry per wall above each cell, including the outer bottom
    /// border: `width * (height + 1)` entries, row-major.
    pub(crate) horizontal_walls: Vec<bool>,
}

/// Left and Right address the vertical wall vector; Up and Down the
/// horizontal one.
pub open spec fn is_vertical(d: Direction) -> bool {
    d == Direction::Left || d == Direction::Right
}

/// Column of the wall slot addressed by `(x, _, d)`.
pub open spec fn slot_x(x: int, d: Direction) -> int {
    if d == Direction::Right {
        x + 1
    } else {
        x
    }
}

/// Row of the wall slot addressed by `(_, y, d)`.
pub open spec fn slot_y(y: int, d: Direction) -> int {
    if d == Direction::Down {
        y + 1
    } else {
        y
    }
}

impl Maze {
    pub open(crate) spec fn spec_width(&self) -> int {
        self.width as int
    }

    pub open(crate) spec fn spec_height(&self) -> int {
        self.height as int
    }

    /// The vertical wall vector, as a sequence.
    pub open(crate) spec fn vw(&self) -> Seq<bool> {
        self.vertical_walls@
    }

    /// The horizontal wall vector, as a sequence.
    pub open(crate) spec fn hw(&self) -> Seq<bool> {
        self.horizontal_walls@
    }

    /// Well-formedness: positive dimensions, a size bound that keeps every
    /// index computation inside `u32`, and wall vectors of the exact sizes
    /// the dimensions dictate.
    pub open(crate) spec fn wf(&self) -> bool {
        &&& 1 <= self.width
        &&& 1 <= self.height
        &&& (self.width + 1) * (self.height + 1) <= 0x4000_0000
        &&& self.vertical_walls@.len() == (self.width + 1) * self.height
        &&& self.horizontal_walls@.len() == self.width * (self.height + 1)
    }

    pub open(crate) spec fn in_bounds(&self, x: int, y: int) -> bool {
        0 <= x < self.width && 0 <= y < self.height
    }

    pub open(crate) spec fn same_dims(&self, other: &Maze) -> bool {
        self.width == other.width && self.height == other.height
    }

    /// Flat index of the wall slot addressed by cell `(x, y)` and `d`,
    /// within the vector that `is_vertical(d)` selects.
    pub open(crate) spec fn slot_index(&self, x: int, y: int, d: Direction) -> int {
        if is_vertical(d) {
            slot_y(y, d) * (self.width + 1) + slot_x(x, d)
        } else {
            slot_y(y, d) * self.width + slot_x(x, d)
        }
    }

    /// The aliased wall flag addressed by `(x, y, d)`.
    pub open(crate) spec fn wall_at(&self, x: int, y: int, d: Direction) -> bool {
        if is_vertical(d) {
            self.vertical_walls@[self.slot_index(x, y, d)]
        } else {
            self.horizontal_walls@[self.slot_index(x, y, d)]
        }
    }

    /// All walls present, as a fresh grid has them.
    pub open(crate) spec fn all_walls(&self) -> bool {
        &&& forall|i: int| 0 <= i < self.vertical_walls@.len() ==> self.vertical_walls@[i]
        &&& forall|i: int| 0 <= i < self.horizontal_walls@.len() ==> self.horizontal_walls@[i]
    }
}

/// Row-major flattening stays inside the vector.
pub proof fn lemma_row_major_bound(y: int, x: int, rows: int, cols: int)
    by (nonlinear_arith)
    requires
        0 <= y < rows,
        0 <= x < cols,
    ensures
        0 <= y * cols + x < rows * cols,
        0 <= y * cols + x < cols * rows,
{
}

/// Row-major flattening is injective.
pub proof fn lemma_row_major_inj(y1: int, x1: int, y2: int, x2: int, cols: int)
    by (nonlinear_arith)
    requires
        0 <= x1 < cols,
        0 <= x2 < cols,
        0 <= y1,
        0 <= y2,
        y1 * cols + x1 == y2 * cols + x2,
    ensures
        y1 == y2 && x1 == x2,
{
}

/// A vector of `n` copies of `val`.
pub(crate) fn repeat_bool(n: usize, val: bool) -> (v: Vec<bool>)
    ensures
        v@.len() == n,
        forall|i: int| 0 <= i < n ==> v@[i] == val,
{
    let mut v: Vec<bool> = Vec::new();
    let mut k: usize = 0;
    while k < n
        invariant
            k <= n,
            v@.len() == k,
            forall|i: int| 0 <= i < k ==> v@[i] == val,
        decreases n - k,
    {
        v.push(val);
        k = k + 1;
    }
    v
}

impl Maze {
    /// A fresh grid with every wall present.
    pub fn new(width: u32, height: u32) -> (m: Maze)
        requires
            1 <= width,
            1 <= height,
            (width + 1) * (height + 1) <= 0x4000_0000,
        ensures
            m.wf(),
            m.spec_width() == width,
            m.spec_height() == height,
            m.all_walls(),
    {
        proof {
            assert((width + 1) * height <= 0x4000_0000 && width * (height + 1) <= 0x4000_0000
                && width + 1 <= 0x2000_0000 && height + 1 <= 0x2000_0000) by (nonlinear_arith)
                requires
                    1 <= width,
                    1 <= height,
                    (width + 1) * (height + 1) <= 0x4000_0000,
            ;
        }
        let n_v: u32 = (width + 1) * height;
        let n_h: u32 = width * (height + 1);
        let vertical_walls = repeat_bool(n_v as usize, true);
        let horizontal_walls = repeat_bool(n_h as usize, true);
        Maze { width, height, vertical_walls, horizontal_walls }
    }

    pub fn get_width(&self) -> (w: u32)
        ensures
            w == self.spec_width(),
    {
        self.width
    }

    pub fn get_height(&self) -> (h: u32)
        ensures
            h == self.spec_height(),
    {
        self.height
    }

    /// The slot addressed by an in-bounds cell lies inside its vector.
    pub(crate) proof fn lemma_slot_in_range(&self, x: int, y: int, d: Direction)
        requires
            self.wf(),
            self.in_bounds(x, y),
        ensures
            is_vertical(d) ==> 0 <= self.slot_index(x, y, d) < self.vertical_walls@.len(),
            !is_vertical(d) ==> 0 <= self.slot_index(x, y, d) < self.horizontal_walls@.len(),
    {
        if is_vertical(d) {
            lemma_row_major_bound(slot_y(y, d), slot_x(x, d), self.height as int, self.width + 1);
        } else {
            lemma_row_major_bound(slot_y(y, d), slot_x(x, d), self.height + 1, self.width as int);
        }
    }

    /// Reads the aliased wall slot.
    pub fn has_wall(&self, x: u32, y: u32, direction: Direction) -> (r: bool)
        requires
            self.wf(),
            self.in_bounds(x as int, y as int),
        ensures
            r == self.wall_at(x as int, y as int, direction),
    {
        proof {
            self.lemma_slot_in_range(x as int, y as int, direction);
            assert(self.width + 1 <= 0x2000_0000 && (self.width + 1) * self.height
                <= 0x4000_0000 && self.width * (self.height + 1) <= 0x4000_0000)
                by (nonlinear_arith)
                requires
                    1 <= self.width,
                    1 <= self.height,
                    (self.width + 1) * (self.height + 1) <= 0x4000_0000,
            ;
        }
        match direction {
            Direction::Left => self.vertical_walls[(y * (self.width + 1) + x) as usize],
            Direction::Up => self.horizontal_walls[(y * self.width + x) as usize],
            Direction::Right => self.vertical_walls[(y * (self.width + 1) + (x + 1)) as usize],
            Direction::Down => self.horizontal_walls[((y + 1) * self.width + x) as usize],
        }
    }

    /// Writes the aliased wall slot; every other slot keeps its value.
    pub fn set_wall(&mut self, x: u32, y: u32, direction: Direction, wall: bool)
        requires
            old(self).wf(),
            old(self).in_bounds(x as int, y as int),
        ensures
            final(self).wf(),
            final(self).same_dims(old(self)),
            is_vertical(direction) ==> final(self).vw() == old(self).vw().update(
                old(self).slot_index(x as int, y as int, direction),
                wall,
            ) && final(self).hw() == old(self).hw(),
            !is_vertical(direction) ==> final(self).hw() == old(self).hw().update(
                old(self).slot_index(x as int, y as int, direction),
                wall,
            ) && final(self).vw() == old(self).vw(),
    {
        proof {
            self.lemma_slot_in_range(x as int, y as int, direction);
            assert(self.width + 1 <= 0x2000_0000 && (self.width + 1) * self.height
                <= 0x4000_0000 && self.width * (self.height + 1) <= 0x4000_0000)
                by (nonlinear_arith)
                requires
                    1 <= self.width,
                    1 <= self.height,
                    (self.width + 1) * (self.height + 1) <= 0x4000_0000,
            ;
        }
        match direction {
            Direction::Left => {
                let i = (y * (self.width + 1) + x) as usize;
                self.vertical_walls.set(i, wall);
            },
            Direction::Up => {
                let i = (y * self.width + x) as usize;
                self.horizontal_walls.set(i, wall);
            },
            Direction::Right => {
                let i = (y * (self.width + 1) + (x + 1)) as usize;
                self.vertical_walls.set(i, wall);
            },
            Direction::Down => {
                let i = ((y + 1) * self.width + x) as usize;
                self.horizontal_walls.set(i, wall);
            },
        }
    }
}

/// After writing slot `(x, y, d)`, a query through any coordinates that
/// address a different slot reads its old value, and any that alias the
/// written slot read the new one.
pub proof fn lemma_set_wall_frame(m1: &Maze, m2: &Maze, x: int, y: int, d: Direction, b: bool)
    requires
        m1.wf(),
        m1.in_bounds(x, y),
        m2.same_dims(m1),
        is_vertical(d) ==> m2.vw() == m1.vw().update(m1.slot_index(x, y, d), b) && m2.hw()
            == m1.hw(),
        !is_vertical(d) ==> m2.hw() == m1.hw().update(m1.slot_index(x, y, d), b) && m2.vw()
            == m1.vw(),
    ensures
        m2.wf(),
        m2.wall_at(x, y, d) == b,
        forall|x2: int, y2: int, d2: Direction|
            m1.in_bounds(x2, y2) && !(is_vertical(d2) == is_vertical(d) && slot_x(x2, d2) == slot_x(
                x,
                d,
            ) && slot_y(y2, d2) == slot_y(y, d)) ==> #[trigger] m2.wall_at(x2, y2, d2)
                == m1.wall_at(x2, y2, d2),
{
    m1.lemma_slot_in_range(x, y, d);
    assert forall|x2: int, y2: int, d2: Direction|
        m1.in_bounds(x2, y2) && !(is_vertical(d2) == is_vertical(d) && slot_x(x2, d2) == slot_x(
            x,
            d,
        ) && slot_y(y2, d2) == slot_y(y, d)) implies #[trigger] m2.wall_at(x2, y2, d2) == m1.wall_at(
        x2,
        y2,
        d2,
    ) by {
        m1.lemma_slot_in_range(x2, y2, d2);
        if is_vertical(d2) == is_vertical(d) {
            let cols: int = if is_vertical(d) {
                m1.width + 1
            } else {
                m1.width as int
            };
            if m1.slot_index(x2, y2, d2) == m1.slot_index(x, y, d) {
                lemma_row_major_inj(slot_y(y2, d2), slot_x(x2, d2), slot_y(y, d), slot_x(x, d), cols);
            }
        }
    }
}

/// Wall aliasing: an interior wall read from either adjoining cell through
/// opposite directions is the very same storage slot, so the two reads are
/// always equal, whatever carving has happened.
pub proof fn lemma_wall_aliasing(m: &Maze, x: int, y: int)
    requires
        m.wf(),
        m.in_bounds(x, y),
    ensures
        m.in_bounds(x + 1, y) ==> m.wall_at(x, y, Direction::Right) == m.wall_at(
            x + 1,
            y,
            Direction::Left,
        ),
        m.in_bounds(x, y + 1) ==> m.wall_at(x, y, Direction::Down) == m.wall_at(
            x,
            y + 1,
            Direction::Up,
        ),
{
}

} // verus!
