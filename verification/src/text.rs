//! The text rendering core: box-drawing glyph selection per grid-line
//! intersection. Printing the rows is left to the caller.

use vstd::prelude::*;

use crate::maze::Direction;
use crate::maze::Maze;

verus! {

/// The box-drawing glyph for one intersection, from the presence of its
/// four incident walls (left, up, right, down).
pub open spec fn glyph_char(l: bool, u: bool, r: bool, d: bool) -> char {
    if l && u && r && d {
        '┼'
    } else if l && u && r {
        '┴'
    } else if l && u && d {
        '┤'
    } else if l && r && d {
        '┬'
    } else if u && r && d {
        '├'
    } else if l && u {
        '┘'
    } else if l && r {
        '─'
    } else if l && d {
        '┐'
    } else if u && r {
        '└'
    } else if u && d {
        '│'
    } else if r && d {
        '┌'
    } else if l {
        '╴'
    } else if u {
        '╵'
    } else if r {
        '╶'
    } else if d {
        '╷'
    } else {
        ' '
    }
}

/// The filler after a glyph: a bar when a wall continues to the right.
pub open spec fn glyph_fill(r: bool) -> char {
    if r {
        '─'
    } else {
        ' '
    }
}

/// The character at position `i` of the text row for intersection row `y`:
/// glyphs at even positions, fillers at odd ones.
pub open(crate) spec fn row_char(m: &Maze, y: int, i: int) -> char {
    let x = i / 2;
    if i % 2 == 0 {
        glyph_char(
            m.wall_safe_at(x - 1, y, Direction::Up),
            m.wall_safe_at(x, y - 1, Direction::Left),
            m.wall_safe_at(x, y, Direction::Up),
            m.wall_safe_at(x, y, Direction::Left),
        )
    } else {
        glyph_fill(m.wall_safe_at(x, y, Direction::Up))
    }
}

fn glyph(l: bool, u: bool, r: bool, d: bool) -> (c: char)
    ensures
        c == glyph_char(l, u, r, d),
{
    if l && u && r && d {
        '┼'
    } else if l && u && r {
        '┴'
    } else if l && u && d {
        '┤'
    } else if l && r && d {
        '┬'
    } else if u && r && d {
        '├'
    } else if l && u {
        '┘'
    } else if l && r {
        '─'
    } else if l && d {
        '┐'
    } else if u && r {
        '└'
    } else if u && d {
        '│'
    } else if r && d {
        '┌'
    } else if l {
        '╴'
    } else if u {
        '╵'
    } else if r {
        '╶'
    } else if d {
        '╷'
    } else {
        ' '
    }
}

impl Maze {
    /// The full text diagram, one vector of characters per row of
    /// grid-line intersections: `height + 1` rows, each of
    /// `2 * (width + 1)` characters chosen from the sixteen combinations
    /// of the four incident wall states.
    pub fn render_rows(&self) -> (rows: Vec<Vec<char>>)
        requires
            self.wf(),
        ensures
            rows@.len() == self.spec_height() + 1,
            forall|y: int|
                0 <= y <= self.spec_height() ==> (#[trigger] rows@[y])@.len() == 2 * (
                self.spec_width() + 1),
            forall|y: int, i: int|
                0 <= y <= self.spec_height() && 0 <= i < 2 * (self.spec_width() + 1)
                    ==> #[trigger] rows@[y]@[i] == row_char(self, y, i),
    {
        proof {
            assert(self.spec_width() + 1 <= 0x2000_0000 && self.spec_height() + 1 <= 0x2000_0000)
                by (nonlinear_arith)
                requires
                    1 <= self.spec_width(),
                    1 <= self.spec_height(),
                    (self.spec_width() + 1) * (self.spec_height() + 1) <= 0x4000_0000,
            ;
        }
        let h1 = self.get_height() + 1;
        let w1 = self.get_width() + 1;
        let mut rows: Vec<Vec<char>> = Vec::new();
        let mut y: u32 = 0;
        while y < h1
            invariant
                self.wf(),
                y <= self.spec_height() + 1,
                rows@.len() == y,
                forall|y2: int|
                    0 <= y2 < y ==> (#[trigger] rows@[y2])@.len() == 2 * (self.spec_width() + 1),
                forall|y2: int, i: int|
                    0 <= y2 < y && 0 <= i < 2 * (self.spec_width() + 1) ==> #[trigger] rows@[y2]@[i]
                        == row_char(self, y2, i),
                h1 == self.spec_height() + 1,
                w1 == self.spec_width() + 1,
                w1 <= 0x2000_0000,
            decreases self.spec_height() + 1 - y,
        {
            let mut row: Vec<char> = Vec::new();
            let mut x: u32 = 0;
            while x < w1
                invariant
                    self.wf(),
                    y <= self.spec_height(),
                    x <= self.spec_width() + 1,
                    w1 == self.spec_width() + 1,
                    w1 <= 0x2000_0000,
                    row@.len() == 2 * x,
                    forall|i: int|
                        0 <= i < 2 * x ==> #[trigger] row@[i] == row_char(self, y as int, i),
                decreases self.spec_width() + 1 - x,
            {
                let xi: i64 = x as i64;
                let yi: i64 = y as i64;
                let l = self.has_wall_safe(xi - 1, yi, Direction::Up);
                let u = self.has_wall_safe(xi, yi - 1, Direction::Left);
                let r = self.has_wall_safe(xi, yi, Direction::Up);
                let d = self.has_wall_safe(xi, yi, Direction::Left);
                row.push(glyph(l, u, r, d));
                row.push(if r {
                    '─'
                } else {
                    ' '
                });
                proof {
                    assert((2 * x as int) / 2 == x as int && (2 * x as int) % 2 == 0 && (2 * x as int
                        + 1) / 2 == x as int && (2 * x as int + 1) % 2 == 1);
                    assert(row@[2 * x as int] == row_char(self, y as int, 2 * x as int));
                    assert(row@[2 * x as int + 1] == row_char(self, y as int, 2 * x as int + 1));
                }
                x = x + 1;
            }
            rows.push(row);
            y = y + 1;
        }
        rows
    }
}

} // verus!
