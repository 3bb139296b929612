//! Mathematical model of a toroidal Game of Life grid.
//!
//! A grid is a width, a height, and a row-major sequence of booleans, one
//! per cell. The transition rule, neighbor counting with wraparound, and the
//! textual rendering are all defined here as specification functions; the
//! executable engine is proved against these definitions.

use vstd::prelude::*;

verus! {

/// Abstract state of a grid: dimensions and one boolean per cell,
/// row-major (cell `(r, c)` is at index `r * width + c`).
#[verifier::ext_equal]
pub ghost struct GridModel {
    pub width: nat,
    pub height: nat,
    pub cells: Seq<bool>,
}

/// 1 for a live cell, 0 for a dead one; used to sum neighbor counts.
pub open spec fn b2i(b: bool) -> int {
    if b {
        1
    } else {
        0
    }
}

impl GridModel {
    /// A meaningful grid: both dimensions positive, one cell per position.
    pub open spec fn wf(self) -> bool {
        &&& 0 < self.width
        &&& 0 < self.height
        &&& self.cells.len() == self.width * self.height
    }

    pub open spec fn in_bounds(self, r: int, c: int) -> bool {
        &&& 0 <= r < self.height
        &&& 0 <= c < self.width
    }

    /// The cell at row `r`, column `c` (both in bounds).
    pub open spec fn cell(self, r: int, c: int) -> bool {
        self.cells[r * self.width + c]
    }

    /// The cell at row `r`, column `c`, wrapped toroidally: any integer
    /// coordinates are reduced modulo the grid dimensions.
    pub open spec fn cell_wrapped(self, r: int, c: int) -> bool {
        self.cell(r % self.height as int, c % self.width as int)
    }

    /// Number of live cells among the 8 toroidally-wrapped neighbors of
    /// `(r, c)`, the cell itself excluded.
    pub open spec fn live_neighbors(self, r: int, c: int) -> int {
        b2i(self.cell_wrapped(r - 1, c - 1)) + b2i(self.cell_wrapped(r - 1, c)) + b2i(
            self.cell_wrapped(r - 1, c + 1),
        ) + b2i(self.cell_wrapped(r, c - 1)) + b2i(self.cell_wrapped(r, c + 1)) + b2i(
            self.cell_wrapped(r + 1, c - 1),
        ) + b2i(self.cell_wrapped(r + 1, c)) + b2i(self.cell_wrapped(r + 1, c + 1))
    }

    /// The standard rule: a live cell survives on 2 or 3 live neighbors,
    /// a dead cell is born on exactly 3.
    pub open spec fn next_cell(self, r: int, c: int) -> bool {
        if self.cell(r, c) {
            self.live_neighbors(r, c) == 2 || self.live_neighbors(r, c) == 3
        } else {
            self.live_neighbors(r, c) == 3
        }
    }

    /// One generation: every cell is replaced simultaneously, each judged
    /// against the pre-tick state.
    pub open spec fn step(self) -> GridModel {
        GridModel {
            width: self.width,
            height: self.height,
            cells: Seq::new(
                self.cells.len(),
                |i: int| self.next_cell(i / self.width as int, i % self.width as int),
            ),
        }
    }

    /// `n` generations.
    pub open spec fn step_n(self, n: nat) -> GridModel
        decreases n,
    {
        if n == 0 {
            self
        } else {
            self.step().step_n((n - 1) as nat)
        }
    }

    /// The grid with the listed `(row, col)` coordinates marked alive and
    /// every other cell left as it was.
    pub open spec fn with_live(self, coords: Seq<(u32, u32)>) -> GridModel {
        GridModel {
            width: self.width,
            height: self.height,
            cells: Seq::new(
                self.cells.len(),
                |i: int| self.cells[i] || exists|k: int|
                    0 <= k < coords.len() && coords[k].0 * self.width + coords[k].1 == i,
            ),
        }
    }
}

/// The glyph a cell renders as: one fixed character for alive, another for
/// dead.
pub open spec fn glyph(alive: bool) -> char {
    if alive {
        '\u{25fc}'
    } else {
        '\u{25fb}'
    }
}

/// The two characters a cell renders as: a space, then its glyph.
pub open spec fn render_cell(alive: bool) -> Seq<char> {
    seq![' ', glyph(alive)]
}

impl GridModel {
    /// The rendering of the first `n` cells of row `r`.
    pub open spec fn row_prefix(self, r: int, n: int) -> Seq<char>
        decreases n,
    {
        if n <= 0 {
            Seq::empty()
        } else {
            self.row_prefix(r, n - 1) + render_cell(self.cell(r, n - 1))
        }
    }

    /// The rendering of row `r`: `width` space-separated glyphs, without the
    /// trailing newline.
    pub open spec fn render_row(self, r: int) -> Seq<char> {
        self.row_prefix(r, self.width as int)
    }

    /// The rendering of the first `n` rows, each followed by a newline.
    pub open spec fn render_upto(self, n: int) -> Seq<char>
        decreases n,
    {
        if n <= 0 {
            Seq::empty()
        } else {
            self.render_upto(n - 1) + self.render_row(n - 1) + seq!['\n']
        }
    }

    /// The full text form: `height` lines of `width` glyphs each, in
    /// row-major order, a newline after every line.
    pub open spec fn render(self) -> Seq<char> {
        self.render_upto(self.height as int)
    }
}

/// Marking an empty list of coordinates changes nothing.
pub proof fn lemma_with_live_empty(g: GridModel, coords: Seq<(u32, u32)>)
    requires
        g.wf(),
        coords.len() == 0,
    ensures
        g.with_live(coords) == g,
{
    assert(g.with_live(coords).cells =~= g.cells);
    assert(g.with_live(coords) =~= g);
}

/// Marking one more coordinate sets exactly one more cell: the grid for the
/// first `k + 1` coordinates is the grid for the first `k` with the cell of
/// coordinate `k` made alive.
pub proof fn lemma_with_live_step(g: GridModel, coords: Seq<(u32, u32)>, k: int)
    requires
        g.wf(),
        0 <= k < coords.len(),
        (coords[k].0 as int) < g.height,
        (coords[k].1 as int) < g.width,
    ensures
        0 <= coords[k].0 * g.width + coords[k].1 < g.cells.len(),
        g.with_live(coords.take(k + 1)) == (GridModel {
            width: g.width,
            height: g.height,
            cells: g.with_live(coords.take(k)).cells.update(
                coords[k].0 * g.width + coords[k].1,
                true,
            ),
        }),
{
    let idx = coords[k].0 * g.width + coords[k].1;
    assert((coords[k].0 as int) * (g.width as int) + (coords[k].1 as int) < (g.width as int) * (
    g.height as int)) by (nonlinear_arith)
        requires
            (coords[k].0 as int) < (g.height as int),
            (coords[k].1 as int) < (g.width as int),
            0 < g.width,
            0 < g.height,
    ;
    let c = coords.take(k + 1);
    let d = coords.take(k);
    let a = g.with_live(c).cells;
    let b = g.with_live(d).cells.update(idx, true);
    assert forall|i: int| 0 <= i < a.len() implies a[i] == b[i] by {
        if a[i] {
            if !g.cells[i] {
                let t = choose|t: int|
                    0 <= t < c.len() && (#[trigger] c[t]).0 * g.width + c[t].1 == i;
                if t < k {
                    assert(d[t].0 * g.width + d[t].1 == i);
                    assert(exists|u: int|
                        0 <= u < d.len() && (#[trigger] d[u]).0 * g.width + d[u].1 == i);
                    assert(b[i]);
                } else {
                    assert(i == idx);
                }
            }
        }
        if b[i] {
            if i == idx {
                assert(c[k].0 * g.width + c[k].1 == i);
                assert(exists|u: int|
                    0 <= u < c.len() && (#[trigger] c[u]).0 * g.width + c[u].1 == i);
                assert(a[i]);
            } else {
                if !g.cells[i] {
                    let t = choose|t: int|
                        0 <= t < d.len() && (#[trigger] d[t]).0 * g.width + d[t].1 == i;
                    assert(c[t].0 * g.width + c[t].1 == i);
                    assert(exists|u: int|
                        0 <= u < c.len() && (#[trigger] c[u]).0 * g.width + c[u].1 == i);
                    assert(a[i]);
                }
            }
        }
    }
    assert(a =~= b);
    assert(g.with_live(coords.take(k + 1)) =~= GridModel {
        width: g.width,
        height: g.height,
        cells: b,
    });
}

} // verus!
