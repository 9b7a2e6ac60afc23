//! Border geometry: pure queries about adjacency, border membership, and
//! boundary-safe wall lookups used by the renderers.

use vstd::prelude::*;

use crate::maze::Direction;
use crate::maze::Maze;

verus! {

impl Maze {
    /// True when the wall of `(x, y)` in direction `d` lies on the grid's
    /// outer border, that is, when the neighbour in `d` falls off the grid.
    pub open(crate) spec fn outward(&self, x: int, y: int, d: Direction) -> bool {
        match d {
            Direction::Left => x == 0,
            Direction::Up => y == 0,
            Direction::Right => x == self.width - 1,
            Direction::Down => y == self.height - 1,
        }
    }

    /// Coordinates of the neighbour of `(x, y)` in direction `d`.
    pub open(crate) spec fn step_x(x: int, d: Direction) -> int {
        match d {
            Direction::Left => x - 1,
            Direction::Right => x + 1,
            _ => x,
        }
    }

    pub open(crate) spec fn step_y(y: int, d: Direction) -> int {
        match d {
            Direction::Up => y - 1,
            Direction::Down => y + 1,
            _ => y,
        }
    }

    pub open(crate) spec fn is_border_spec(&self, x: int, y: int) -> bool {
        x == 0 || y == 0 || x == self.width - 1 || y == self.height - 1
    }

    /// The boundary-safe wall query, as a total function of the extended
    /// coordinates. Queries fully outside the `[-1, dimension]` ring give
    /// no wall; queries on the ring map the one inward-pointing direction
    /// to the adjoining real wall.
    pub open(crate) spec fn wall_safe_at(&self, x: int, y: int, d: Direction) -> bool {
        let w = self.width as int;
        let h = self.height as int;
        if x < -1 || y < -1 || x > w || y > h {
            false
        } else if y == -1 {
            if x == -1 || x == w {
                false
            } else if d == Direction::Down {
                self.wall_at(x, 0, Direction::Up)
            } else {
                false
            }
        } else if x == -1 {
            if y == h {
                false
            } else if d == Direction::Right {
                self.wall_at(0, y, Direction::Left)
            } else {
                false
            }
        } else if y == h {
            if x == w {
                false
            } else if d == Direction::Up {
                self.wall_at(x, h - 1, Direction::Down)
            } else {
                false
            }
        } else if x == w {
            if d == Direction::Left {
                self.wall_at(w - 1, y, Direction::Right)
            } else {
                false
            }
        } else {
            self.wall_at(x, y, d)
        }
    }

    /// The neighbouring cell in `direction`, or `None` when it would fall
    /// outside the grid. This is the sole bounds check the carving
    /// algorithm relies on.
    pub fn get_adjacent_cell(&self, x: u32, y: u32, direction: Direction) -> (r: Option<
        (u32, u32),
    >)
        requires
            self.wf(),
            self.in_bounds(x as int, y as int),
        ensures
            self.outward(x as int, y as int, direction) ==> r is None,
            !self.outward(x as int, y as int, direction) ==> r == Some(
                (
                    Self::step_x(x as int, direction) as u32,
                    Self::step_y(y as int, direction) as u32,
                ),
            ) && self.in_bounds(
                Self::step_x(x as int, direction),
                Self::step_y(y as int, direction),
            ),
    {
        match direction {
            Direction::Left => if x > 0 {
                Some((x - 1, y))
            } else {
                None
            },
            Direction::Up => if y > 0 {
                Some((x, y - 1))
            } else {
                None
            },
            Direction::Right => if x < self.get_width() - 1 {
                Some((x + 1, y))
            } else {
                None
            },
            Direction::Down => if y < self.get_height() - 1 {
                Some((x, y + 1))
            } else {
                None
            },
        }
    }

    /// True iff the cell touches any of the four grid edges.
    pub fn is_border_cell(&self, x: u32, y: u32) -> (r: bool)
        requires
            self.wf(),
            self.in_bounds(x as int, y as int),
        ensures
            r == self.is_border_spec(x as int, y as int),
    {
        x == 0 || y == 0 || x == self.get_width() - 1 || y == self.get_height() - 1
    }

    /// Boundary-safe wall query over the extended coordinate range, used by
    /// the renderers to draw a clean one-cell border frame. Total: any
    /// query with a coordinate at or beyond two cells outside the grid is
    /// simply `false`.
    pub fn has_wall_safe(&self, x: i64, y: i64, direction: Direction) -> (r: bool)
        requires
            self.wf(),
        ensures
            r == self.wall_safe_at(x as int, y as int, direction),
            (x <= -2 || y <= -2 || x >= self.spec_width() + 1 || y >= self.spec_height() + 1)
                ==> r == false,
    {
        let width: i64 = self.get_width() as i64;
        let height: i64 = self.get_height() as i64;
        if x < -1 || y < -1 || x > width || y > height {
            return false;
        }
        if y == -1 {
            return match x {
                -1 => false,
                x if x == width => false,
                _ => match direction {
                    Direction::Down => self.has_wall(x as u32, 0, Direction::Up),
                    _ => false,
                },
            };
        }
        if x == -1 {
            return match y {
                y if y == height => false,
                _ => match direction {
                    Direction::Right => self.has_wall(0, y as u32, Direction::Left),
                    _ => false,
                },
            };
        }
        if y == height {
            return match x {
                x if x == width => false,
                _ => match direction {
                    Direction::Up => self.has_wall(x as u32, (height - 1) as u32, Direction::Down),
                    _ => false,
                },
            };
        }
        if x == width {
            return match direction {
                Direction::Left => self.has_wall((width - 1) as u32, y as u32, Direction::Right),
                _ => false,
            };
        }
        self.has_wall(x as u32, y as u32, direction)
    }
}

} // verus!
