//! Row-major index arithmetic shared by the normalizer and the quantizer:
//! decoding a flat buffer index into coordinates and locating a position
//! within the cell grid.

use vstd::prelude::*;

use vstd::arithmetic::div_mod::{
    lemma_fundamental_div_mod, lemma_fundamental_div_mod_converse, lemma_mod_bound,
};
use vstd::arithmetic::mul::{lemma_mul_inequality, lemma_mul_is_commutative};

use crate::pixel::CANVAS_SIZE;

verus! {

/// Decomposing a row-major index: `y * w + x` decodes back to `(x, y)`.
pub proof fn lemma_row_major(x: int, y: int, w: int)
    requires
        w >= 1,
        0 <= x < w,
        0 <= y,
    ensures
        (y * w + x) % w == x,
        (y * w + x) / w == y,
{
    lemma_fundamental_div_mod_converse(y * w + x, w, y, x);
}

/// A position below `g * cs` falls in one of the first `g` blocks of edge `cs`.
pub proof fn lemma_div_below(x: int, cs: int, g: int)
    requires
        cs >= 1,
        0 <= x < g * cs,
    ensures
        0 <= x / cs < g,
        0 <= x % cs < cs,
        x / cs * cs + x % cs == x,
{
    lemma_fundamental_div_mod(x, cs);
    lemma_mod_bound(x, cs);
    lemma_mul_is_commutative(cs, x / cs);
    if x / cs >= g {
        lemma_mul_inequality(g, x / cs, cs);
    }
    if x / cs < 0 {
        lemma_mul_inequality(x / cs, -1, cs);
    }
}

/// The grid covers at most the whole canvas: `g * (canvas / g) <= canvas`.
pub proof fn lemma_grid_fits(g: int)
    requires
        1 <= g,
    ensures
        g * (CANVAS_SIZE as int / g) <= CANVAS_SIZE as int,
{
    lemma_fundamental_div_mod(CANVAS_SIZE as int, g);
    lemma_mod_bound(CANVAS_SIZE as int, g);
}

/// A grid resolution of at most the canvas size gives cells at least one
/// pixel wide.
pub proof fn lemma_cell_size_pos(g: int)
    requires
        1 <= g <= CANVAS_SIZE as int,
    ensures
        CANVAS_SIZE as int / g >= 1,
{
    lemma_fundamental_div_mod(CANVAS_SIZE as int, g);
    lemma_mod_bound(CANVAS_SIZE as int, g);
    if CANVAS_SIZE as int / g <= 0 {
        lemma_mul_inequality(CANVAS_SIZE as int / g, 0, g);
        lemma_mul_is_commutative(g, CANVAS_SIZE as int / g);
    }
}

/// An offset `(dx, dy)` within the cell at `(gx, gy)` decodes back to that cell.
pub proof fn lemma_cell_member(gx: int, gy: int, cs: int, dx: int, dy: int)
    requires
        cs >= 1,
        0 <= gx,
        0 <= gy,
        0 <= dx < cs,
        0 <= dy < cs,
    ensures
        (gx * cs + dx) / cs == gx,
        (gy * cs + dy) / cs == gy,
        (gx * cs + dx) % cs == dx,
        (gy * cs + dy) % cs == dy,
{
    lemma_fundamental_div_mod_converse(gx * cs + dx, cs, gx, dx);
    lemma_fundamental_div_mod_converse(gy * cs + dy, cs, gy, dy);
}

} // verus!
