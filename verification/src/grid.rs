//! The executable grid engine: a bit-packed cell buffer with construction,
//! cell-setting, the generation step, and helpers, all proved against the
//! model in [`crate::model`].

use crate::model::GridModel;
use vstd::arithmetic::div_mod::{
    lemma_fundamental_div_mod, lemma_mod_add_multiples_vanish, lemma_mod_bound, lemma_mod_self_0,
    lemma_small_mod,
};
use vstd::prelude::*;
use vstd::string::StringExecFns;

verus! {

/// The recoverable failures at the engine boundary: a zero dimension at
/// construction, or a row index past the last row on a row projection.
#[derive(Clone, Copy, Debug, PartialEq, Eq, Structural)]
pub enum GridError {
    InvalidDimensions,
    RowOutOfBounds,
}

/// Bit `i` of the word `w`, for `i < 64`.
pub open spec fn word_bit(w: u64, i: u64) -> bool {
    (w >> i) & 1u64 == 1u64
}

/// Bit `i` of a packed buffer of 64-bit words, for `0 <= i < 64 * words.len()`.
pub open spec fn buf_bit(words: Seq<u64>, i: int) -> bool {
    word_bit(words[i / 64], (i % 64) as u64)
}

proof fn lemma_word_bit_zero(j: u64)
    by (bit_vector)
    requires
        j < 64,
    ensures
        !word_bit(0u64, j),
{
}

proof fn lemma_word_bit_set(w: u64, i: u64, j: u64)
    by (bit_vector)
    requires
        i < 64,
        j < 64,
    ensures
        word_bit(w | (1u64 << i), j) == (word_bit(w, j) || i == j),
{
}

/// The word index and bit index of bit `i` are in range, and recombine to `i`.
proof fn lemma_bit_addr(i: int, len: int)
    requires
        0 <= i < 64 * len,
    ensures
        0 <= i / 64 < len,
        0 <= i % 64 < 64,
        i == 64 * (i / 64) + i % 64,
{
    lemma_fundamental_div_mod(i, 64);
    lemma_mod_bound(i, 64);
}

/// A buffer of `(x + 63) / 64` words has at least `x` bits.
proof fn lemma_words_cover(x: int)
    requires
        0 <= x,
    ensures
        x <= 64 * ((x + 63) / 64),
{
    lemma_fundamental_div_mod(x + 63, 64);
    lemma_mod_bound(x + 63, 64);
}

/// Conway's Game of Life on a fixed-size toroidal grid. Cells are stored
/// bit-packed, one bit per cell, in row-major order; trailing padding bits
/// in the last word stay dead and are never observed.
#[derive(Debug)]
pub struct Universe {
    width: u32,
    height: u32,
    cells: Vec<u64>,
}

impl View for Universe {
    type V = GridModel;

    closed spec fn view(&self) -> GridModel {
        GridModel {
            width: self.width as nat,
            height: self.height as nat,
            cells: Seq::new(
                (self.width as nat) * (self.height as nat),
                |i: int| buf_bit(self.cells@, i),
            ),
        }
    }
}

impl Universe {
    /// The representation invariant: positive dimensions, a cell count that
    /// fits `u32`, exactly enough words for the cells, and dead padding bits.
    pub closed spec fn well_formed(&self) -> bool {
        &&& 0 < self.width
        &&& 0 < self.height
        &&& (self.width as int) * (self.height as int) <= u32::MAX as int
        &&& self.cells@.len() == ((self.width as int) * (self.height as int) + 63) / 64
        &&& forall|i: int|
            (self.width as int) * (self.height as int) <= i < 64 * self.cells@.len()
                ==> !buf_bit(self.cells@, i)
    }

    /// Builds an all-dead grid, rejecting a zero width or height. The cell
    /// count must fit a `u32`; that is the one machine limit callers carry.
    pub fn new(width: u32, height: u32) -> (result: Result<Universe, GridError>)
        requires
            (width as int) * (height as int) <= u32::MAX as int,
        ensures
            (width == 0 || height == 0) ==> (result matches Err(e) && e
                == GridError::InvalidDimensions),
            (0 < width && 0 < height) ==> (result matches Ok(u) && u.well_formed() && u@.wf()
                && u@.width == width as nat && u@.height == height as nat && forall|i: int|
                0 <= i < u@.cells.len() ==> !u@.cells[i]),
    {
        if width == 0 || height == 0 {
            return Err(GridError::InvalidDimensions);
        }
        let size: u32 = width * height;
        let nwords: usize = ((size as u64 + 63) / 64) as usize;
        let mut cells: Vec<u64> = Vec::new();
        let mut i: usize = 0;
        while i < nwords
            invariant
                cells@.len() == i,
                i <= nwords,
                forall|j: int| 0 <= j < i ==> cells@[j] == 0u64,
            decreases nwords - i,
        {
            cells.push(0u64);
            i = i + 1;
        }
        let u = Universe { width, height, cells };
        proof {
            lemma_words_cover(size as int);
            assert forall|i: int| 0 <= i < 64 * u.cells@.len() implies !buf_bit(u.cells@, i) by {
                lemma_bit_addr(i, u.cells@.len() as int);
                lemma_word_bit_zero((i % 64) as u64);
            }
        }
        Ok(u)
    }

    /// The linear, row-major index of cell `(row, col)`.
    fn get_index(&self, row: u32, col: u32) -> (idx: usize)
        requires
            self.well_formed(),
            row < self.height,
            col < self.width,
        ensures
            idx as int == row as int * self@.width + col as int,
            idx < self@.width * self@.height,
    {
        proof {
            assert((row as int) * (self.width as int) + (col as int) < (self.width as int) * (
            self.height as int)) by (nonlinear_arith)
                requires
                    (row as int) < (self.height as int),
                    (col as int) < (self.width as int),
                    0 < self.width,
                    0 < self.height,
            ;
        }
        (row * self.width + col) as usize
    }

    /// Reads bit `idx` of the packed buffer.
    fn buf_get(buf: &Vec<u64>, idx: usize) -> (b: bool)
        requires
            (idx as int) < 64 * buf@.len(),
        ensures
            b == buf_bit(buf@, idx as int),
    {
        proof {
            lemma_bit_addr(idx as int, buf@.len() as int);
        }
        let q: usize = idx / 64;
        let b: u64 = (idx % 64) as u64;
        ((buf[q] >> b) & 1u64) == 1u64
    }

    /// Sets bit `idx` of the packed buffer, leaving every other bit as it was.
    fn buf_set(buf: &mut Vec<u64>, idx: usize)
        requires
            (idx as int) < 64 * old(buf)@.len(),
        ensures
            final(buf)@.len() == old(buf)@.len(),
            forall|i: int|
                0 <= i < 64 * final(buf)@.len() ==> buf_bit(final(buf)@, i) == (buf_bit(
                    old(buf)@,
                    i,
                ) || i == idx as int),
    {
        proof {
            lemma_bit_addr(idx as int, old(buf)@.len() as int);
        }
        let q: usize = idx / 64;
        let b: u64 = (idx % 64) as u64;
        let w: u64 = buf[q];
        buf[q] = w | (1u64 << b);
        proof {
            assert forall|i: int| 0 <= i < 64 * buf@.len() implies buf_bit(buf@, i) == (buf_bit(
                old(buf)@,
                i,
            ) || i == idx as int) by {
                lemma_bit_addr(i, buf@.len() as int);
                if i / 64 == q as int {
                    lemma_word_bit_set(w, b, (i % 64) as u64);
                }
            }
        }
    }

    /// Reads the cell at in-bounds coordinates `(row, col)`.
    fn cell_at(&self, row: u32, col: u32) -> (b: bool)
        requires
            self.well_formed(),
            row < self.height,
            col < self.width,
        ensures
            b == self@.cell(row as int, col as int),
    {
        let idx = self.get_index(row, col);
        proof {
            lemma_words_cover((self.width as int) * (self.height as int));
        }
        Self::buf_get(&self.cells, idx)
    }

    /// Marks every listed `(row, col)` coordinate alive; all other cells are
    /// untouched. Every coordinate must be in bounds.
    pub fn set_cells(&mut self, cells: &[(u32, u32)])
        requires
            old(self).well_formed(),
            forall|k: int|
                0 <= k < cells@.len() ==> (cells@[k].0 as int) < old(self)@.height && (
                cells@[k].1 as int) < old(self)@.width,
        ensures
            final(self).well_formed(),
            final(self)@ == old(self)@.with_live(cells@),
    {
        let ghost orig = *self;
        proof {
            crate::model::lemma_with_live_empty(orig@, cells@.take(0));
        }
        let mut k: usize = 0;
        while k < cells.len()
            invariant
                self.well_formed(),
                self.width == orig.width,
                self.height == orig.height,
                k <= cells@.len(),
                forall|t: int|
                    0 <= t < cells@.len() ==> (cells@[t].0 as int) < orig@.height && (
                    cells@[t].1 as int) < orig@.width,
                self@ == orig@.with_live(cells@.take(k as int)),
            decreases cells@.len() - k,
        {
            let (row, col) = cells[k];
            let idx = self.get_index(row, col);
            proof {
                lemma_words_cover((self.width as int) * (self.height as int));
                crate::model::lemma_with_live_step(orig@, cells@, k as int);
            }
            let ghost before = self@;
            Self::buf_set(&mut self.cells, idx);
            proof {
                assert forall|i: int| 0 <= i < self@.cells.len() implies self@.cells[i]
                    == before.cells.update(idx as int, true)[i] by {
                    assert(self@.cells[i] == (before.cells[i] || i == idx as int));
                }
                assert(self@.cells =~= before.cells.update(idx as int, true));
                assert(self@ =~= orig@.with_live(cells@.take(k as int + 1)));
            }
            k = k + 1;
        }
        proof {
            assert(cells@.take(cells@.len() as int) =~= cells@);
        }
    }

    /// The position before `i` on a wheel of `m` positions: `(i - 1) mod m`,
    /// computed without unsigned underflow.
    fn wrap_dec(i: u32, m: u32) -> (r: u32)
        requires
            0 < m,
            i < m,
        ensures
            r as int == (i - 1) % (m as int),
            r < m,
    {
        proof {
            if i == 0 {
                lemma_mod_add_multiples_vanish(-1, m as int);
                lemma_small_mod((m - 1) as nat, m as nat);
            } else {
                lemma_small_mod((i - 1) as nat, m as nat);
            }
        }
        if i == 0 {
            m - 1
        } else {
            i - 1
        }
    }

    /// The position after `i` on a wheel of `m` positions: `(i + 1) mod m`.
    fn wrap_inc(i: u32, m: u32) -> (r: u32)
        requires
            0 < m,
            i < m,
        ensures
            r as int == (i + 1) % (m as int),
            r < m,
    {
        proof {
            if i == m - 1 {
                lemma_mod_self_0(m as int);
            } else {
                lemma_small_mod((i + 1) as nat, m as nat);
            }
        }
        if i == m - 1 {
            0
        } else {
            i + 1
        }
    }

    /// Counts the live cells among the 8 toroidally-wrapped neighbors of
    /// `(row, col)`, the cell itself excluded.
    fn live_neighbour_count(&self, row: u32, col: u32) -> (count: u8)
        requires
            self.well_formed(),
            row < self.height,
            col < self.width,
        ensures
            count as int == self@.live_neighbors(row as int, col as int),
    {
        let up = Self::wrap_dec(row, self.height);
        let down = Self::wrap_inc(row, self.height);
        let left = Self::wrap_dec(col, self.width);
        let right = Self::wrap_inc(col, self.width);
        proof {
            lemma_small_mod(row as nat, self.height as nat);
            lemma_small_mod(col as nat, self.width as nat);
        }
        let mut count: u8 = 0;
        if self.cell_at(up, left) {
            count = count + 1;
        }
        if self.cell_at(up, col) {
            count = count + 1;
        }
        if self.cell_at(up, right) {
            count = count + 1;
        }
        if self.cell_at(row, left) {
            count = count + 1;
        }
        if self.cell_at(row, right) {
            count = count + 1;
        }
        if self.cell_at(down, left) {
            count = count + 1;
        }
        if self.cell_at(down, col) {
            count = count + 1;
        }
        if self.cell_at(down, right) {
            count = count + 1;
        }
        count
    }

    /// Advances the grid one generation: every cell is judged simultaneously
    /// against the pre-tick state, and the new buffer replaces the old one as
    /// a single unit.
    pub fn tick(&mut self)
        requires
            old(self).well_formed(),
        ensures
            final(self).well_formed(),
            final(self)@ == old(self)@.step(),
    {
        let ghost g = self@;
        let nwords = self.cells.len();
        let mut next: Vec<u64> = Vec::new();
        let mut i: usize = 0;
        while i < nwords
            invariant
                next@.len() == i,
                i <= nwords,
                forall|j: int| 0 <= j < i ==> next@[j] == 0u64,
            decreases nwords - i,
        {
            next.push(0u64);
            i = i + 1;
        }
        proof {
            lemma_words_cover((self.width as int) * (self.height as int));
            assert forall|b: int| 0 <= b < 64 * next@.len() implies !buf_bit(next@, b) by {
                lemma_bit_addr(b, next@.len() as int);
                lemma_word_bit_zero((b % 64) as u64);
            }
        }
        let mut row: u32 = 0;
        while row < self.height
            invariant
                self == old(self),
                self.well_formed(),
                g == self@,
                row <= self.height,
                next@.len() == self.cells@.len(),
                forall|b: int|
                    0 <= b < row as int * self@.width ==> buf_bit(next@, b) == g.next_cell(
                        b / self@.width as int,
                        b % self@.width as int,
                    ),
                forall|b: int|
                    row as int * self@.width <= b < 64 * next@.len() ==> !buf_bit(next@, b),
            decreases self.height - row,
        {
            let mut col: u32 = 0;
            while col < self.width
                invariant
                    self == old(self),
                    self.well_formed(),
                    g == self@,
                    row < self.height,
                    col <= self.width,
                    next@.len() == self.cells@.len(),
                    forall|b: int|
                        0 <= b < row as int * self@.width + col as int ==> buf_bit(next@, b)
                            == g.next_cell(b / self@.width as int, b % self@.width as int),
                    forall|b: int|
                        row as int * self@.width + col as int <= b < 64 * next@.len()
                            ==> !buf_bit(next@, b),
                decreases self.width - col,
            {
                let idx = self.get_index(row, col);
                let alive = self.cell_at(row, col);
                let n = self.live_neighbour_count(row, col);
                let lives = if alive {
                    n == 2 || n == 3
                } else {
                    n == 3
                };
                proof {
                    lemma_words_cover((self.width as int) * (self.height as int));
                    vstd::arithmetic::div_mod::lemma_fundamental_div_mod_converse(
                        idx as int,
                        self@.width as int,
                        row as int,
                        col as int,
                    );
                    assert(g.next_cell(idx as int / self@.width as int, idx as int % self@.width as int)
                        == lives);
                }
                if lives {
                    Self::buf_set(&mut next, idx);
                }
                col = col + 1;
            }
            proof {
                assert((row + 1) as int * self@.width == row as int * self@.width
                    + self@.width) by (nonlinear_arith);
            }
            row = row + 1;
        }
        self.cells = next;
        proof {
            assert((self.height as int) * (self.width as int) == (self.width as int) * (
            self.height as int)) by (nonlinear_arith);
            assert forall|b: int|
                (self.width as int) * (self.height as int) <= b < 64
                    * self.cells@.len() implies !buf_bit(self.cells@, b) by {
                assert(!buf_bit(next@, b));
            }
            assert forall|b: int| 0 <= b < g.step().cells.len() implies self@.cells[b]
                == g.step().cells[b] by {
                assert(buf_bit(next@, b) == g.next_cell(
                    b / self@.width as int,
                    b % self@.width as int,
                ));
            }
            assert(self@.cells =~= g.step().cells);
            assert(self@ =~= g.step());
        }
    }

    /// The text of one row: a space and a glyph per cell, no newline.
    fn row_chars(&self, row: u32) -> (out: String)
        requires
            self.well_formed(),
            row < self.height,
        ensures
            out@ == self@.render_row(row as int),
    {
        let mut out = String::new();
        let mut col: u32 = 0;
        while col < self.width
            invariant
                self.well_formed(),
                row < self.height,
                col <= self.width,
                out@ == self@.row_prefix(row as int, col as int),
            decreases self.width - col,
        {
            if self.cell_at(row, col) {
                out.append(" \u{25fc}");
            } else {
                out.append(" \u{25fb}");
            }
            proof {
                reveal_strlit(" \u{25fc}");
                reveal_strlit(" \u{25fb}");
                assert(out@ =~= self@.row_prefix(row as int, col as int + 1));
            }
            col = col + 1;
        }
        out
    }

    /// Renders the whole grid: `height` lines of `width` space-separated
    /// glyphs, a newline after every line. Pure projection of the state.
    pub fn render(&self) -> (out: String)
        requires
            self.well_formed(),
        ensures
            out@ == self@.render(),
    {
        let mut out = String::new();
        let mut row: u32 = 0;
        while row < self.height
            invariant
                self.well_formed(),
                row <= self.height,
                out@ == self@.render_upto(row as int),
            decreases self.height - row,
        {
            let line = self.row_chars(row);
            out.append(line.as_str());
            out.append("\n");
            proof {
                reveal_strlit("\n");
                assert(out@ =~= self@.render_upto(row as int + 1));
            }
            row = row + 1;
        }
        out
    }

    /// The text of row `row` alone, equal to line `row` of [`Self::render`];
    /// rejects any row index at or past the last row.
    pub fn get_row_as_string(&self, row: u32) -> (result: Result<String, GridError>)
        requires
            self.well_formed(),
        ensures
            (row as int) < self@.height ==> (result matches Ok(s) && s@ == self@.render_row(
                row as int,
            )),
            (row as int) >= self@.height ==> (result matches Err(e) && e
                == GridError::RowOutOfBounds),
    {
        if row < self.height {
            Ok(self.row_chars(row))
        } else {
            Err(GridError::RowOutOfBounds)
        }
    }
}

} // verus!
