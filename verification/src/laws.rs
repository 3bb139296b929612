//! Properties of the grid model that relate several operations: the shape of
//! the rendered text, what a freshly populated grid shows, the toroidal
//! corner adjacency, and the agreement between a single rendered row and the
//! matching line of the full rendering.

use crate::model::{glyph, GridModel};
use vstd::arithmetic::div_mod::{
    lemma_div_pos_is_pos, lemma_fundamental_div_mod, lemma_fundamental_div_mod_converse,
    lemma_mod_add_multiples_vanish, lemma_mod_bound, lemma_mod_self_0, lemma_small_mod,
};
use vstd::prelude::*;

verus! {

proof fn lemma_row_prefix_len(g: GridModel, r: int, n: int)
    requires
        0 <= n,
    ensures
        g.row_prefix(r, n).len() == 2 * n,
    decreases n,
{
    if n > 0 {
        lemma_row_prefix_len(g, r, n - 1);
    }
}

proof fn lemma_row_prefix_chars(g: GridModel, r: int, n: int, c: int)
    requires
        0 <= c < n,
    ensures
        g.row_prefix(r, n)[2 * c] == ' ',
        g.row_prefix(r, n)[2 * c + 1] == glyph(g.cell(r, c)),
    decreases n,
{
    lemma_row_prefix_len(g, r, n - 1);
    if c < n - 1 {
        lemma_row_prefix_chars(g, r, n - 1, c);
    }
}

proof fn lemma_render_upto_len(g: GridModel, n: int)
    requires
        0 <= n,
    ensures
        g.render_upto(n).len() == n * (2 * g.width + 1),
    decreases n,
{
    if n > 0 {
        lemma_render_upto_len(g, n - 1);
        lemma_row_prefix_len(g, n - 1, g.width as int);
        assert(n * (2 * g.width + 1) == (n - 1) * (2 * g.width + 1) + (2 * g.width
            + 1)) by (nonlinear_arith);
    }
}

proof fn lemma_render_upto_line(g: GridModel, r: int, n: int)
    requires
        0 <= r < n,
    ensures
        g.render_upto(n).len() == n * (2 * g.width + 1),
        g.render_upto(n).subrange(
            r * (2 * g.width + 1),
            r * (2 * g.width + 1) + 2 * g.width,
        ) =~= g.render_row(r),
        g.render_upto(n)[r * (2 * g.width + 1) + 2 * g.width] == '\n',
    decreases n,
{
    lemma_render_upto_len(g, n);
    lemma_render_upto_len(g, n - 1);
    lemma_row_prefix_len(g, n - 1, g.width as int);
    let w2 = 2 * g.width as int;
    let start = r * (w2 + 1);
    let a = g.render_upto(n - 1);
    let b = g.render_row(n - 1);
    let full = g.render_upto(n);
    assert(full == a + b + seq!['\n']);
    if r < n - 1 {
        lemma_render_upto_line(g, r, n - 1);
        assert(0 <= start && start + w2 + 1 <= (n - 1) * (w2 + 1)) by (nonlinear_arith)
            requires
                0 <= r,
                r + 1 <= n - 1,
                0 <= w2,
                start == r * (w2 + 1),
        ;
        assert forall|j: int| 0 <= j < w2 implies full.subrange(start, start + w2)[j]
            == g.render_row(r)[j] by {
            assert(full[start + j] == a[start + j]);
            assert(a.subrange(start, start + w2)[j] == a[start + j]);
        }
        assert(full.subrange(start, start + w2) =~= g.render_row(r));
        assert(full[start + w2] == a[start + w2]);
    } else {
        assert(r == n - 1);
        assert(start == a.len());
        assert forall|j: int| 0 <= j < w2 implies full.subrange(start, start + w2)[j]
            == g.render_row(r)[j] by {
            assert(full[start + j] == b[j]);
        }
        assert(full.subrange(start, start + w2) =~= g.render_row(r));
        assert(full[start + w2] == '\n');
    }
}

/// The rendering of a well-formed grid has `height` lines of `2 * width + 1`
/// characters each: for every in-bounds cell `(r, c)` a space then its glyph
/// at the cell's position, and a newline closing row `r`. The characters
/// depend on nothing but the cells.
pub proof fn lemma_render_structure(g: GridModel, r: int, c: int)
    requires
        g.wf(),
        g.in_bounds(r, c),
    ensures
        g.render().len() == g.height * (2 * g.width + 1),
        g.render()[r * (2 * g.width + 1) + 2 * c] == ' ',
        g.render()[r * (2 * g.width + 1) + 2 * c + 1] == glyph(g.cell(r, c)),
        g.render()[r * (2 * g.width + 1) + 2 * g.width] == '\n',
{
    lemma_render_upto_len(g, g.height as int);
    lemma_render_upto_line(g, r, g.height as int);
    lemma_row_prefix_chars(g, r, g.width as int, c);
    let w2 = 2 * g.width as int;
    let start = r * (w2 + 1);
    assert(0 <= start && start + w2 + 1 <= g.height * (w2 + 1)) by (nonlinear_arith)
        requires
            0 <= r,
            r + 1 <= g.height,
            0 <= w2,
            start == r * (w2 + 1),
    ;
    let line = g.render().subrange(start, start + w2);
    assert(line == g.render_row(r));
    assert(g.render()[start + 2 * c] == line[2 * c]);
    assert(g.render()[start + 2 * c + 1] == line[2 * c + 1]);
}

/// A single rendered row is exactly the matching line of the full
/// rendering: the characters of line `r`, followed by that line's newline.
pub proof fn lemma_row_matches_render_line(g: GridModel, r: int)
    requires
        g.wf(),
        0 <= r < g.height,
    ensures
        g.render().len() == g.height * (2 * g.width + 1),
        g.render().subrange(
            r * (2 * g.width + 1),
            r * (2 * g.width + 1) + 2 * g.width,
        ) == g.render_row(r),
        g.render()[r * (2 * g.width + 1) + 2 * g.width] == '\n',
{
    lemma_render_upto_line(g, r, g.height as int);
}

/// A grid whose cells are all dead renders every cell as the dead glyph:
/// the form a freshly constructed grid shows, `height` lines of `width`
/// glyphs each.
pub proof fn lemma_fresh_grid_renders_dead(g: GridModel, r: int, c: int)
    requires
        g.wf(),
        g.in_bounds(r, c),
        forall|i: int| 0 <= i < g.cells.len() ==> !g.cells[i],
    ensures
        g.render().len() == g.height * (2 * g.width + 1),
        g.render()[r * (2 * g.width + 1) + 2 * c + 1] == glyph(false),
{
    lemma_render_structure(g, r, c);
    assert(0 <= r * g.width + c < g.cells.len()) by (nonlinear_arith)
        requires
            0 <= r < g.height,
            0 <= c < g.width,
            g.cells.len() == g.width * g.height,
    ;
    assert(!g.cell(r, c));
}

/// Row-major linear indices are injective: two in-bounds coordinate pairs
/// with the same linear index are the same pair.
proof fn lemma_index_injective(g: GridModel, r1: int, c1: int, r2: int, c2: int)
    requires
        g.wf(),
        g.in_bounds(r1, c1),
        g.in_bounds(r2, c2),
        r1 * g.width + c1 == r2 * g.width + c2,
    ensures
        r1 == r2 && c1 == c2,
{
    lemma_fundamental_div_mod_converse(r1 * g.width + c1, g.width as int, r1, c1);
    lemma_fundamental_div_mod_converse(r2 * g.width + c2, g.width as int, r2, c2);
}

/// Marking a list of in-bounds coordinates alive in an all-dead grid makes
/// exactly the listed cells alive and nothing else.
pub proof fn lemma_set_cells_exact(g: GridModel, coords: Seq<(u32, u32)>)
    requires
        g.wf(),
        g.width <= u32::MAX as nat,
        g.height <= u32::MAX as nat,
        forall|i: int| 0 <= i < g.cells.len() ==> !g.cells[i],
        forall|k: int|
            0 <= k < coords.len() ==> (coords[k].0 as int) < g.height && (coords[k].1 as int)
                < g.width,
    ensures
        g.with_live(coords).wf(),
        forall|r: int, c: int|
            g.in_bounds(r, c) ==> #[trigger] g.with_live(coords).cell(r, c) == coords.contains(
                (r as u32, c as u32),
            ),
{
    let gl = g.with_live(coords);
    assert forall|r: int, c: int| g.in_bounds(r, c) implies #[trigger] gl.cell(r, c)
        == coords.contains((r as u32, c as u32)) by {
        assert(0 <= r * g.width + c < g.cells.len()) by (nonlinear_arith)
            requires
                0 <= r < g.height,
                0 <= c < g.width,
                g.cells.len() == g.width * g.height,
        ;
        let i = r * g.width + c;
        if gl.cell(r, c) {
            let t = choose|t: int|
                0 <= t < coords.len() && (#[trigger] coords[t]).0 * g.width + coords[t].1 == i;
            lemma_index_injective(g, coords[t].0 as int, coords[t].1 as int, r, c);
            assert(coords[t] == (r as u32, c as u32));
        }
        if coords.contains((r as u32, c as u32)) {
            let t = choose|t: int| 0 <= t < coords.len() && coords[t] == (r as u32, c as u32);
            assert(coords[t].0 * g.width + coords[t].1 == i);
            assert(exists|u: int|
                0 <= u < coords.len() && (#[trigger] coords[u]).0 * g.width + coords[u].1 == i);
        }
    }
}

/// The opposite corners of a toroidal grid are adjacent: a live cell at
/// either corner contributes to the other corner's live neighbor count.
pub proof fn lemma_corner_adjacency(g: GridModel)
    requires
        g.wf(),
        2 <= g.width,
        2 <= g.height,
    ensures
        g.cell(g.height - 1, g.width - 1) ==> g.live_neighbors(0, 0) >= 1,
        g.cell(0, 0) ==> g.live_neighbors(g.height - 1, g.width - 1) >= 1,
{
    let w = g.width as int;
    let h = g.height as int;
    lemma_mod_add_multiples_vanish(-1, h);
    lemma_small_mod((h - 1) as nat, h as nat);
    lemma_mod_add_multiples_vanish(-1, w);
    lemma_small_mod((w - 1) as nat, w as nat);
    lemma_mod_self_0(h);
    lemma_mod_self_0(w);
    assert(g.cell_wrapped(-1, -1) == g.cell(h - 1, w - 1));
    assert(g.cell_wrapped(h - 1 + 1, w - 1 + 1) == g.cell(0, 0));
}

/// Wrapping one step off an in-bounds position lands where the torus says.
proof fn lemma_wrap_values(m: int, i: int)
    requires
        0 < m,
        0 <= i < m,
    ensures
        (i - 1) % m == (if i == 0 {
            m - 1
        } else {
            i - 1
        }),
        (i + 1) % m == (if i == m - 1 {
            0
        } else {
            i + 1
        }),
        i % m == i,
{
    if i == 0 {
        lemma_mod_add_multiples_vanish(-1, m);
        lemma_small_mod((m - 1) as nat, m as nat);
    } else {
        lemma_small_mod((i - 1) as nat, m as nat);
    }
    if i == m - 1 {
        lemma_mod_self_0(m);
    } else {
        lemma_small_mod((i + 1) as nat, m as nat);
    }
    lemma_small_mod(i as nat, m as nat);
}

/// Membership in the 2-by-2 block whose top-left corner is `(r0, c0)`.
pub open spec fn is_block_cell(r0: int, c0: int, r: int, c: int) -> bool {
    (r == r0 || r == r0 + 1) && (c == c0 || c == c0 + 1)
}

/// The grid whose only live cells are the 2-by-2 block at `(r0, c0)`.
pub open spec fn block_grid(w: nat, h: nat, r0: int, c0: int) -> GridModel {
    GridModel {
        width: w,
        height: h,
        cells: Seq::new(w * h, |i: int| is_block_cell(r0, c0, i / w as int, i % w as int)),
    }
}

proof fn lemma_block_cell(w: nat, h: nat, r0: int, c0: int, r: int, c: int)
    requires
        0 < w,
        0 < h,
        0 <= r < h,
        0 <= c < w,
    ensures
        block_grid(w, h, r0, c0).cell(r, c) == is_block_cell(r0, c0, r, c),
{
    assert(0 <= r * w + c < w * h) by (nonlinear_arith)
        requires
            0 <= r < h,
            0 <= c < w,
    ;
    lemma_fundamental_div_mod_converse(r * (w as int) + c, w as int, r, c);
}

proof fn lemma_block_next_cell(w: nat, h: nat, r0: int, c0: int, r: int, c: int)
    requires
        3 <= w,
        3 <= h,
        0 <= r0,
        r0 + 1 < h,
        0 <= c0,
        c0 + 1 < w,
        0 <= r < h,
        0 <= c < w,
    ensures
        block_grid(w, h, r0, c0).next_cell(r, c) == is_block_cell(r0, c0, r, c),
{
    let g = block_grid(w, h, r0, c0);
    let wi = w as int;
    let hi = h as int;
    lemma_wrap_values(hi, r);
    lemma_wrap_values(wi, c);
    let rm = (r - 1) % hi;
    let rp = (r + 1) % hi;
    let cm = (c - 1) % wi;
    let cp = (c + 1) % wi;
    lemma_block_cell(w, h, r0, c0, rm, cm);
    lemma_block_cell(w, h, r0, c0, rm, c);
    lemma_block_cell(w, h, r0, c0, rm, cp);
    lemma_block_cell(w, h, r0, c0, r, cm);
    lemma_block_cell(w, h, r0, c0, r, c);
    lemma_block_cell(w, h, r0, c0, r, cp);
    lemma_block_cell(w, h, r0, c0, rp, cm);
    lemma_block_cell(w, h, r0, c0, rp, c);
    lemma_block_cell(w, h, r0, c0, rp, cp);
    assert(g.live_neighbors(r, c) == crate::model::b2i(is_block_cell(r0, c0, rm, cm))
        + crate::model::b2i(is_block_cell(r0, c0, rm, c)) + crate::model::b2i(
        is_block_cell(r0, c0, rm, cp),
    ) + crate::model::b2i(is_block_cell(r0, c0, r, cm)) + crate::model::b2i(
        is_block_cell(r0, c0, r, cp),
    ) + crate::model::b2i(is_block_cell(r0, c0, rp, cm)) + crate::model::b2i(
        is_block_cell(r0, c0, rp, c),
    ) + crate::model::b2i(is_block_cell(r0, c0, rp, cp)));
}

proof fn lemma_block_step(w: nat, h: nat, r0: int, c0: int)
    requires
        3 <= w,
        3 <= h,
        0 <= r0,
        r0 + 1 < h,
        0 <= c0,
        c0 + 1 < w,
    ensures
        block_grid(w, h, r0, c0).step() == block_grid(w, h, r0, c0),
{
    let g = block_grid(w, h, r0, c0);
    let wi = w as int;
    assert forall|i: int| 0 <= i < g.cells.len() implies g.step().cells[i] == g.cells[i] by {
        lemma_mod_bound(i, wi);
        lemma_fundamental_div_mod(i, wi);
        lemma_div_pos_is_pos(i, wi);
        assert(i / wi < h) by (nonlinear_arith)
            requires
                wi * (i / wi) == i - (i % wi),
                0 <= i % wi,
                i < wi * h,
                0 < wi,
        ;
        lemma_block_next_cell(w, h, r0, c0, i / wi, i % wi);
    }
    assert(g.step().cells =~= g.cells);
    assert(g.step() =~= g);
}

/// The horizontal blinker: a 5-by-5 grid whose row 2, columns 1 through 3,
/// are alive.
pub open spec fn blinker_horizontal() -> GridModel {
    GridModel {
        width: 5,
        height: 5,
        cells: Seq::new(25, |i: int| i == 11 || i == 12 || i == 13),
    }
}

/// The vertical blinker: a 5-by-5 grid whose column 2, rows 1 through 3,
/// are alive.
pub open spec fn blinker_vertical() -> GridModel {
    GridModel {
        width: 5,
        height: 5,
        cells: Seq::new(25, |i: int| i == 7 || i == 12 || i == 17),
    }
}

#[verifier::rlimit(80)]
proof fn lemma_blinker_horizontal_to_vertical()
    ensures
        blinker_horizontal().step() == blinker_vertical(),
{
    assert forall|i: int| 0 <= i < 25 implies blinker_horizontal().step().cells[i]
        == blinker_vertical().cells[i] by {
        lemma_mod_bound(i, 5);
        lemma_fundamental_div_mod(i, 5);
        lemma_wrap_values(5, i / 5);
        lemma_wrap_values(5, i % 5);
    }
    assert(blinker_horizontal().step().cells =~= blinker_vertical().cells);
    assert(blinker_horizontal().step() =~= blinker_vertical());
}

#[verifier::rlimit(80)]
proof fn lemma_blinker_vertical_to_horizontal()
    ensures
        blinker_vertical().step() == blinker_horizontal(),
{
    assert forall|i: int| 0 <= i < 25 implies blinker_vertical().step().cells[i]
        == blinker_horizontal().cells[i] by {
        lemma_mod_bound(i, 5);
        lemma_fundamental_div_mod(i, 5);
        lemma_wrap_values(5, i / 5);
        lemma_wrap_values(5, i % 5);
    }
    assert(blinker_vertical().step().cells =~= blinker_horizontal().cells);
    assert(blinker_vertical().step() =~= blinker_horizontal());
}

/// The blinker oscillates with period two: one tick turns the horizontal
/// line into the vertical one, and a second tick restores it.
pub proof fn lemma_blinker_period_two()
    ensures
        blinker_horizontal().step() == blinker_vertical(),
        blinker_vertical().step() == blinker_horizontal(),
        blinker_horizontal().step().step() == blinker_horizontal(),
{
    lemma_blinker_horizontal_to_vertical();
    lemma_blinker_vertical_to_horizontal();
}

/// A 2-by-2 block of live cells, everything else dead, is a still life: any
/// number of ticks leaves it unchanged. Stated for grids of at least 3 by 3
/// with the block placed away from the wrapping edge; on a 2-wide or 2-tall
/// torus the block's cells double-count each other and the pattern dies.
pub proof fn lemma_block_still_life(w: nat, h: nat, r0: int, c0: int, n: nat)
    requires
        3 <= w,
        3 <= h,
        0 <= r0,
        r0 + 1 < h,
        0 <= c0,
        c0 + 1 < w,
    ensures
        block_grid(w, h, r0, c0).step_n(n) == block_grid(w, h, r0, c0),
    decreases n,
{
    if n > 0 {
        lemma_block_step(w, h, r0, c0);
        lemma_block_still_life(w, h, r0, c0, (n - 1) as nat);
    }
}

} // verus!
