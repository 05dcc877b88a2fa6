//! A rectangular grid of cell values and its neighbourhood lookups.

use crate::parse::digit_val;
use vstd::pervasive::VecAdditionalExecFns;
use vstd::prelude::*;

verus! {

/// A rectangular grid, row-major: cell `(r, c)` sits at `r * width + c`.
#[derive(Debug)]
pub struct Grid {
    pub cells: Vec<usize>,
    pub height: usize,
    pub width: usize,
}

impl Grid {
    /// The cell vector covers the full rectangle.
    pub open spec fn wf(&self) -> bool {
        self.cells@.len() == self.height * self.width
    }

    /// The value of cell `(r, c)`.
    pub open spec fn cell(&self, r: int, c: int) -> int {
        self.cells@[r * self.width + c] as int
    }

    /// The cell lies on the grid.
    pub open spec fn in_bounds(&self, r: int, c: int) -> bool {
        0 <= r < self.height && 0 <= c < self.width
    }

    /// Reads one cell.
    pub fn get(&self, r: usize, c: usize) -> (v: usize)
        requires
            self.wf(),
            self.in_bounds(r as int, c as int),
        ensures
            v == self.cell(r as int, c as int),
    {
        let n = self.cells.len();
        proof {
            assert(r * self.width + c < self.width * self.height) by (nonlinear_arith)
                requires r < self.height, c < self.width;
            assert(self.width * self.height == self.height * self.width) by (nonlinear_arith);
        }
        self.cells[r * self.width + c]
    }

    /// Writes one cell.
    pub fn set_cell(&mut self, r: usize, c: usize, v: usize)
        requires
            old(self).wf(),
            old(self).in_bounds(r as int, c as int),
        ensures
            final(self).wf(),
            final(self).height == old(self).height,
            final(self).width == old(self).width,
            final(self).cells@ == old(self).cells@.update(r * old(self).width + c, v),
    {
        let n = self.cells.len();
        proof {
            assert(r * self.width + c < self.width * self.height) by (nonlinear_arith)
                requires r < self.height, c < self.width;
            assert(self.width * self.height == self.height * self.width) by (nonlinear_arith);
        }
        self.cells.set(r * self.width + c, v);
    }
}

/// Every line has the grid's width and holds only decimal digits.
pub open spec fn good_grid_lines(lines: Seq<Seq<char>>) -> bool {
    &&& lines.len() > 0
    &&& forall|i: int| 0 <= i < lines.len() ==> (#[trigger] lines[i]).len() == lines[0].len()
    &&& forall|i: int, j: int| 0 <= i < lines.len() && 0 <= j < lines[i].len() ==> ('0'
        <= #[trigger] lines[i][j] && lines[i][j] <= '9')
}

/// The char sequences of the lines.
pub open spec fn grid_char_lines(lines: Seq<String>) -> Seq<Seq<char>> {
    lines.map_values(|s: String| s@)
}

/// Builds a grid of digits from equally long lines of digit characters.
pub fn parse_lines(lines: &Vec<String>) -> (g: Grid)
    requires
        good_grid_lines(grid_char_lines(lines@)),
        lines@.len() * lines@[0]@.len() <= usize::MAX,
    ensures
        g.wf(),
        g.height == lines@.len(),
        g.width == lines@[0]@.len(),
        forall|r: int, c: int| g.in_bounds(r, c) ==> #[trigger] g.cell(r, c) == digit_val(
            lines@[r]@[c],
        ),
{
    let ghost cl = grid_char_lines(lines@);
    let h = lines.len();
    let w = lines[0].as_str().unicode_len();
    let mut cells: Vec<usize> = Vec::new();
    let mut r: usize = 0;
    while r < h
        invariant
            0 <= r <= h,
            h == lines@.len(),
            w == lines@[0]@.len(),
            cl == grid_char_lines(lines@),
            good_grid_lines(cl),
            h * w <= usize::MAX,
            cells@.len() == r * w,
            forall|r2: int, c2: int| 0 <= r2 < r && 0 <= c2 < w ==> #[trigger] cells@[r2 * w + c2]
                == digit_val(lines@[r2]@[c2]),
        decreases h - r,
    {
        proof {
            assert(cl[r as int] == lines@[r as int]@);
            assert(lines@[r as int]@.len() == w);
        }
        let line = &lines[r];
        let mut c: usize = 0;
        while c < w
            invariant
                0 <= c <= w,
                0 <= r < h,
                h == lines@.len(),
                w == lines@[0]@.len(),
                cl == grid_char_lines(lines@),
                good_grid_lines(cl),
                lines@[r as int]@.len() == w,
                line@ == lines@[r as int]@,
                h * w <= usize::MAX,
                cells@.len() == r * w + c,
                forall|r2: int, c2: int| 0 <= r2 < r && 0 <= c2 < w ==> #[trigger] cells@[r2 * w
                    + c2] == digit_val(lines@[r2]@[c2]),
                forall|c2: int| 0 <= c2 < c ==> #[trigger] cells@[r * w + c2] == digit_val(
                    lines@[r as int]@[c2],
                ),
            decreases w - c,
        {
            proof {
                assert(cl[r as int][c as int] == lines@[r as int]@[c as int]);
                assert((r + 1) * w <= h * w) by (nonlinear_arith)
                    requires r < h, 0 <= w;
                assert(r * w + c < (r + 1) * w) by (nonlinear_arith)
                    requires c < w, 0 <= r;
            }
            proof {
                assert('0' <= cl[r as int][c as int] && cl[r as int][c as int] <= '9');
            }
            let ch = line.as_str().get_char(c);
            let d = (ch as u32) - ('0' as u32);
            cells.push(d as usize);
            proof {
                assert forall|r2: int, c2: int| 0 <= r2 < r && 0 <= c2 < w implies
                    #[trigger] cells@[r2 * w + c2] == digit_val(lines@[r2]@[c2]) by {
                    assert(0 <= r2 * w + c2 < r * w + c) by (nonlinear_arith)
                        requires 0 <= r2 < r, 0 <= c2 < w, 0 <= c;
                }
            }
            c = c + 1;
        }
        proof {
            assert((r + 1) * w == r * w + w) by (nonlinear_arith);
            assert forall|r2: int, c2: int| 0 <= r2 < r + 1 && 0 <= c2 < w implies
                #[trigger] cells@[r2 * w + c2] == digit_val(lines@[r2]@[c2]) by {
                if r2 == r {
                    assert(cells@[r * w + c2] == digit_val(lines@[r as int]@[c2]));
                }
            }
        }
        r = r + 1;
    }
    Grid { cells, height: h, width: w }
}

/// The cells horizontally or vertically adjacent to `(r, c)`, in the order
/// above, below, left, right, without leaving the grid.
pub open spec fn adjacents_spec(height: int, width: int, r: int, c: int) -> Seq<(usize, usize)> {
    (if r > 0 {
        seq![((r - 1) as usize, c as usize)]
    } else {
        Seq::empty()
    }) + (if r + 1 < height {
        seq![((r + 1) as usize, c as usize)]
    } else {
        Seq::empty()
    }) + (if c > 0 {
        seq![(r as usize, (c - 1) as usize)]
    } else {
        Seq::empty()
    }) + (if c + 1 < width {
        seq![(r as usize, (c + 1) as usize)]
    } else {
        Seq::empty()
    })
}

/// The horizontally or vertically adjacent cells; no diagonals.
pub fn find_adjecents(grid: &Grid, pos: (usize, usize)) -> (r: Vec<(usize, usize)>)
    requires
        grid.in_bounds(pos.0 as int, pos.1 as int),
    ensures
        r@ == adjacents_spec(grid.height as int, grid.width as int, pos.0 as int, pos.1 as int),
{
    let mut out: Vec<(usize, usize)> = Vec::new();
    if pos.0 > 0 {
        out.push((pos.0 - 1, pos.1));
    }
    if pos.0 + 1 < grid.height {
        out.push((pos.0 + 1, pos.1));
    }
    if pos.1 > 0 {
        out.push((pos.0, pos.1 - 1));
    }
    if pos.1 + 1 < grid.width {
        out.push((pos.0, pos.1 + 1));
    }
    proof {
        assert(out@ =~= adjacents_spec(
            grid.height as int,
            grid.width as int,
            pos.0 as int,
            pos.1 as int,
        ));
    }
    out
}

/// The cells surrounding `(r, c)`, diagonals included, row by row, without
/// leaving the grid.
pub open spec fn surrounding_spec(height: int, width: int, r: int, c: int) -> Seq<(usize, usize)> {
    (if r > 0 && c > 0 {
        seq![((r - 1) as usize, (c - 1) as usize)]
    } else {
        Seq::empty()
    }) + (if r > 0 {
        seq![((r - 1) as usize, c as usize)]
    } else {
        Seq::empty()
    }) + (if r > 0 && c + 1 < width {
        seq![((r - 1) as usize, (c + 1) as usize)]
    } else {
        Seq::empty()
    }) + (if c > 0 {
        seq![(r as usize, (c - 1) as usize)]
    } else {
        Seq::empty()
    }) + (if c + 1 < width {
        seq![(r as usize, (c + 1) as usize)]
    } else {
        Seq::empty()
    }) + (if r + 1 < height && c > 0 {
        seq![((r + 1) as usize, (c - 1) as usize)]
    } else {
        Seq::empty()
    }) + (if r + 1 < height {
        seq![((r + 1) as usize, c as usize)]
    } else {
        Seq::empty()
    }) + (if r + 1 < height && c + 1 < width {
        seq![((r + 1) as usize, (c + 1) as usize)]
    } else {
        Seq::empty()
    })
}

/// All surrounding cells, diagonals included.
pub fn find_sorounding(grid: &Grid, pos: (usize, usize)) -> (r: Vec<(usize, usize)>)
    requires
        grid.in_bounds(pos.0 as int, pos.1 as int),
    ensures
        r@ == surrounding_spec(grid.height as int, grid.width as int, pos.0 as int, pos.1 as int),
{
    let mut out: Vec<(usize, usize)> = Vec::new();
    if pos.0 > 0 && pos.1 > 0 {
        out.push((pos.0 - 1, pos.1 - 1));
    }
    if pos.0 > 0 {
        out.push((pos.0 - 1, pos.1));
    }
    if pos.0 > 0 && pos.1 + 1 < grid.width {
        out.push((pos.0 - 1, pos.1 + 1));
    }
    if pos.1 > 0 {
        out.push((pos.0, pos.1 - 1));
    }
    if pos.1 + 1 < grid.width {
        out.push((pos.0, pos.1 + 1));
    }
    if pos.0 + 1 < grid.height && pos.1 > 0 {
        out.push((pos.0 + 1, pos.1 - 1));
    }
    if pos.0 + 1 < grid.height {
        out.push((pos.0 + 1, pos.1));
    }
    if pos.0 + 1 < grid.height && pos.1 + 1 < grid.width {
        out.push((pos.0 + 1, pos.1 + 1));
    }
    proof {
        assert(out@ =~= surrounding_spec(
            grid.height as int,
            grid.width as int,
            pos.0 as int,
            pos.1 as int,
        ));
    }
    out
}

} // verus!
