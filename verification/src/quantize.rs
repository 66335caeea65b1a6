//! The Cell Quantizer: walks the canvas in a fixed grid of square cells and
//! replaces each cell with the majority color of its pixels. When the grid
//! resolution does not divide the canvas size evenly, the remainder strip on
//! the right and bottom edges is never visited and keeps the blank value the
//! output buffer was initialized to.

use vstd::prelude::*;

use vstd::arithmetic::div_mod::lemma_mod_bound;
use vstd::arithmetic::mul::lemma_mul_inequality;

use crate::grid::{
    lemma_cell_member, lemma_cell_size_pos, lemma_div_below, lemma_grid_fits, lemma_row_major,
};
use crate::pixel::{blank, blank_pixel, Pixel, PixelBuffer, CANVAS_SIZE};
use crate::vote::{lemma_majority_of_constant, majority_of, majority_pixel};

verus! {

/// The color of the square canvas `c` (row-major) at column `x`, row `y`.
pub open spec fn canvas_at(c: Seq<Pixel>, x: int, y: int) -> Pixel {
    c[y * CANVAS_SIZE as int + x]
}

/// The pixels of the cell of edge `cs` at grid position `(gx, gy)`, row-major.
pub open spec fn cell_pixels(c: Seq<Pixel>, gx: int, gy: int, cs: int) -> Seq<Pixel> {
    Seq::new((cs * cs) as nat, |k: int| canvas_at(c, gx * cs + k % cs, gy * cs + k / cs))
}

/// Whether `(x, y)` lies in the region the cell grid covers.
pub open spec fn covered(x: int, y: int, g: int) -> bool {
    let cs = CANVAS_SIZE as int / g;
    x < g * cs && y < g * cs
}

/// The quantized canvas: every covered position takes the majority color of
/// its cell; the uncovered remainder strip keeps the blank initialization.
pub open spec fn quantized(c: Seq<Pixel>, g: int) -> Seq<Pixel> {
    let cs = CANVAS_SIZE as int / g;
    Seq::new(
        (CANVAS_SIZE * CANVAS_SIZE) as nat,
        |i: int|
            {
                let x = i % (CANVAS_SIZE as int);
                let y = i / (CANVAS_SIZE as int);
                if covered(x, y, g) {
                    majority_of(cell_pixels(c, x / cs, y / cs, cs))
                } else {
                    blank()
                }
            },
    )
}

/// The pixels of the cell at grid position `(gx, gy)`, in row-major order.
fn extract_cell(canvas: &PixelBuffer, gx: u32, gy: u32, cs: u32) -> (cell: Vec<Pixel>)
    requires
        canvas.wf(),
        canvas.width == CANVAS_SIZE,
        canvas.height == CANVAS_SIZE,
        cs >= 1,
        (gx as int + 1) * cs as int <= CANVAS_SIZE as int,
        (gy as int + 1) * cs as int <= CANVAS_SIZE as int,
    ensures
        cell@ == cell_pixels(canvas.pixels@, gx as int, gy as int, cs as int),
        cell@.len() == cs as int * cs as int,
{
    let ghost c = canvas.pixels@;
    proof {
        assert(cs as int <= CANVAS_SIZE as int) by {
            assert((gx as int + 1) * cs as int >= 1 * cs as int) by (nonlinear_arith)
                requires cs >= 1, gx as int >= 0,
            ;
        }
        assert(cs as int * cs as int <= CANVAS_SIZE as int * CANVAS_SIZE as int)
            by (nonlinear_arith)
            requires 1 <= cs as int && cs as int <= CANVAS_SIZE as int,
        ;
    }
    let n: u32 = cs * cs;
    let mut cell: Vec<Pixel> = Vec::new();
    let mut k: u32 = 0;
    while k < n
        invariant
            canvas.wf(),
            canvas.width == CANVAS_SIZE,
            canvas.height == CANVAS_SIZE,
            canvas.pixels@ == c,
            cs >= 1,
            (gx as int + 1) * cs as int <= CANVAS_SIZE as int,
            (gy as int + 1) * cs as int <= CANVAS_SIZE as int,
            n == cs as int * cs as int,
            k <= n,
            cell@.len() == k,
            forall|kk: int|
                0 <= kk < k ==> cell@[kk] == cell_pixels(c, gx as int, gy as int, cs as int)[kk],
        decreases n - k,
    {
        proof {
            lemma_mod_bound(k as int, cs as int);
            lemma_div_below(k as int, cs as int, cs as int);
            assert((gx as int) * (cs as int) + (cs as int) == (gx as int + 1) * (cs as int))
                by (nonlinear_arith);
            assert((gy as int) * (cs as int) + (cs as int) == (gy as int + 1) * (cs as int))
                by (nonlinear_arith);
        }
        let x: u32 = gx * cs + k % cs;
        let y: u32 = gy * cs + k / cs;
        let p = canvas.get(x, y);
        cell.push(p);
        k = k + 1;
    }
    proof {
        assert(cell@ =~= cell_pixels(c, gx as int, gy as int, cs as int));
    }
    cell
}

/// Reduces each grid cell of the canvas to its single most common color.
/// Every covered output position carries the majority color of its cell; the
/// remainder strip (present only when the grid resolution does not divide the
/// canvas size) stays blank.
pub fn quantize(canvas: &PixelBuffer, g: u32) -> (out: PixelBuffer)
    requires
        canvas.wf(),
        canvas.width == CANVAS_SIZE,
        canvas.height == CANVAS_SIZE,
        1 <= g <= CANVAS_SIZE,
    ensures
        out.wf(),
        out.width == CANVAS_SIZE,
        out.height == CANVAS_SIZE,
        out.pixels@ == quantized(canvas.pixels@, g as int),
{
    let ghost c = canvas.pixels@;
    let cs: u32 = CANVAS_SIZE / g;
    proof {
        lemma_grid_fits(g as int);
        lemma_cell_size_pos(g as int);
    }
    // first pass: the majority color of each cell, row-major over the grid
    let mut majors: Vec<Pixel> = Vec::new();
    let mut gy: u32 = 0;
    while gy < g
        invariant
            canvas.wf(),
            canvas.width == CANVAS_SIZE,
            canvas.height == CANVAS_SIZE,
            canvas.pixels@ == c,
            1 <= g <= CANVAS_SIZE,
            cs as int == CANVAS_SIZE as int / g as int,
            cs >= 1,
            g as int * cs as int <= CANVAS_SIZE as int,
            gy <= g,
            majors@.len() == gy as int * g as int,
            forall|j: int|
                0 <= j < majors@.len() ==> #[trigger] majors@[j] == majority_of(
                    cell_pixels(c, j % g as int, j / g as int, cs as int),
                ),
        decreases g - gy,
    {
        let mut gx: u32 = 0;
        while gx < g
            invariant
                canvas.wf(),
                canvas.width == CANVAS_SIZE,
                canvas.height == CANVAS_SIZE,
                canvas.pixels@ == c,
                1 <= g <= CANVAS_SIZE,
                cs as int == CANVAS_SIZE as int / g as int,
                cs >= 1,
                g as int * cs as int <= CANVAS_SIZE as int,
                gy < g,
                gx <= g,
                majors@.len() == gy as int * g as int + gx as int,
                forall|j: int|
                    0 <= j < majors@.len() ==> #[trigger] majors@[j] == majority_of(
                        cell_pixels(c, j % g as int, j / g as int, cs as int),
                    ),
            decreases g - gx,
        {
            proof {
                assert((gx as int + 1) * cs as int <= g as int * cs as int
                    && (gy as int + 1) * cs as int <= g as int * cs as int) by {
                    lemma_mul_inequality(gx as int + 1, g as int, cs as int);
                    lemma_mul_inequality(gy as int + 1, g as int, cs as int);
                }
                assert(gy as int * g as int + g as int <= g as int * g as int) by {
                    lemma_mul_inequality(gy as int + 1, g as int, g as int);
                    assert((gy as int + 1) * g as int == gy as int * g as int + g as int)
                        by (nonlinear_arith);
                }
                assert(g as int * g as int <= CANVAS_SIZE as int * CANVAS_SIZE as int)
                    by (nonlinear_arith)
                    requires 1 <= g as int <= CANVAS_SIZE as int,
                ;
                assert(cs as int * cs as int >= 1) by (nonlinear_arith)
                    requires cs as int >= 1,
                ;
                lemma_row_major(gx as int, gy as int, g as int);
            }
            let cell = extract_cell(canvas, gx, gy, cs);
            let m = majority_pixel(&cell);
            majors.push(m);
            gx = gx + 1;
        }
        proof {
            assert(gy as int * g as int + g as int == (gy as int + 1) * g as int)
                by (nonlinear_arith);
        }
        gy = gy + 1;
    }
    // second pass: fill the output, blank outside the covered region
    let gcs: u32 = g * cs;
    let total: u32 = CANVAS_SIZE * CANVAS_SIZE;
    let mut pixels: Vec<Pixel> = Vec::new();
    let mut i: u32 = 0;
    while i < total
        invariant
            1 <= g <= CANVAS_SIZE,
            cs as int == CANVAS_SIZE as int / g as int,
            cs >= 1,
            gcs as int == g as int * cs as int,
            gcs <= CANVAS_SIZE,
            total == CANVAS_SIZE as int * CANVAS_SIZE as int,
            majors@.len() == g as int * g as int,
            forall|j: int|
                0 <= j < majors@.len() ==> #[trigger] majors@[j] == majority_of(
                    cell_pixels(c, j % g as int, j / g as int, cs as int),
                ),
            i <= total,
            pixels@.len() == i,
            forall|ii: int| 0 <= ii < i ==> pixels@[ii] == quantized(c, g as int)[ii],
        decreases total - i,
    {
        proof {
            lemma_mod_bound(i as int, CANVAS_SIZE as int);
            lemma_div_below(i as int, CANVAS_SIZE as int, CANVAS_SIZE as int);
        }
        let x: u32 = i % CANVAS_SIZE;
        let y: u32 = i / CANVAS_SIZE;
        let p: Pixel;
        if x < gcs && y < gcs {
            proof {
                lemma_div_below(x as int, cs as int, g as int);
                lemma_div_below(y as int, cs as int, g as int);
                lemma_row_major(x as int / cs as int, y as int / cs as int, g as int);
                assert((y as int / cs as int) * g as int + g as int <= g as int * g as int) by {
                    lemma_mul_inequality(y as int / cs as int + 1, g as int, g as int);
                    assert((y as int / cs as int + 1) * g as int == (y as int / cs as int)
                        * g as int + g as int) by (nonlinear_arith);
                }
                assert(g as int * g as int <= CANVAS_SIZE as int * CANVAS_SIZE as int)
                    by (nonlinear_arith)
                    requires 1 <= g as int && g as int <= CANVAS_SIZE as int,
                ;
            }
            let mj: u32 = (y / cs) * g + (x / cs);
            p = majors[mj as usize];
        } else {
            p = blank_pixel();
        }
        pixels.push(p);
        i = i + 1;
    }
    proof {
        assert(pixels@ =~= quantized(c, g as int));
    }
    PixelBuffer { width: CANVAS_SIZE, height: CANVAS_SIZE, pixels }
}

/// Law: the Cell Quantizer is idempotent. A second pass over its own output
/// with the same grid resolution changes nothing: every covered cell is
/// already flat and votes for its own color, and the remainder strip stays
/// blank either way.
pub proof fn lemma_quantize_idempotent(c: Seq<Pixel>, g: int)
    requires
        1 <= g <= CANVAS_SIZE as int,
    ensures
        quantized(quantized(c, g), g) == quantized(c, g),
{
    let w = CANVAS_SIZE as int;
    let cs = w / g;
    let q1 = quantized(c, g);
    let q2 = quantized(q1, g);
    lemma_grid_fits(g);
    lemma_cell_size_pos(g);
    assert forall|i: int| 0 <= i < q2.len() implies q2[i] == q1[i] by {
        let x = i % w;
        let y = i / w;
        lemma_mod_bound(i, w);
        lemma_div_below(i, w, w);
        if covered(x, y, g) {
            let gx = x / cs;
            let gy = y / cs;
            lemma_div_below(x, cs, g);
            lemma_div_below(y, cs, g);
            let m = majority_of(cell_pixels(c, gx, gy, cs));
            let cell2 = cell_pixels(q1, gx, gy, cs);
            assert(cs * cs >= 1) by (nonlinear_arith)
                requires cs >= 1,
            ;
            assert forall|k: int| 0 <= k < cell2.len() implies cell2[k] == m by {
                lemma_mod_bound(k, cs);
                lemma_div_below(k, cs, cs);
                let xx = gx * cs + k % cs;
                let yy = gy * cs + k / cs;
                lemma_cell_member(gx, gy, cs, k % cs, k / cs);
                assert(0 <= gx * cs && 0 <= gy * cs) by {
                    lemma_mul_inequality(0, gx, cs);
                    lemma_mul_inequality(0, gy, cs);
                }
                assert(xx < g * cs && yy < g * cs) by {
                    lemma_mul_inequality(gx + 1, g, cs);
                    lemma_mul_inequality(gy + 1, g, cs);
                    assert((gx + 1) * cs == gx * cs + cs && (gy + 1) * cs == gy * cs + cs)
                        by (nonlinear_arith);
                }
                let ii = yy * w + xx;
                lemma_row_major(xx, yy, w);
                assert(0 <= ii < w * w) by {
                    lemma_mul_inequality(0, yy, w);
                    lemma_mul_inequality(yy + 1, w, w);
                    assert((yy + 1) * w == yy * w + w) by (nonlinear_arith);
                }
                assert(covered(xx, yy, g));
                assert(cell2[k] == q1[ii]);
                assert(q1[ii] == majority_of(cell_pixels(c, xx / cs, yy / cs, cs)));
                assert(xx / cs == gx && yy / cs == gy);
            }
            lemma_majority_of_constant(cell2, m);
        }
    }
    assert(q2 =~= q1);
}

/// Law: the quantized canvas is flat within each cell — two covered positions
/// in the same grid cell always carry the same color.
pub proof fn lemma_same_cell_same_color(c: Seq<Pixel>, g: int, x1: int, y1: int, x2: int, y2: int)
    requires
        1 <= g <= CANVAS_SIZE as int,
        0 <= x1 < CANVAS_SIZE as int,
        0 <= y1 < CANVAS_SIZE as int,
        0 <= x2 < CANVAS_SIZE as int,
        0 <= y2 < CANVAS_SIZE as int,
        covered(x1, y1, g),
        covered(x2, y2, g),
        x1 / (CANVAS_SIZE as int / g) == x2 / (CANVAS_SIZE as int / g),
        y1 / (CANVAS_SIZE as int / g) == y2 / (CANVAS_SIZE as int / g),
    ensures
        quantized(c, g)[y1 * CANVAS_SIZE as int + x1] == quantized(c, g)[y2 * CANVAS_SIZE as int
            + x2],
{
    let w = CANVAS_SIZE as int;
    lemma_cell_size_pos(g);
    lemma_row_major(x1, y1, w);
    lemma_row_major(x2, y2, w);
    assert(0 <= y1 * w && y1 * w + x1 < w * w && 0 <= y2 * w && y2 * w + x2 < w * w) by {
        lemma_mul_inequality(0, y1, w);
        lemma_mul_inequality(0, y2, w);
        lemma_mul_inequality(y1 + 1, w, w);
        lemma_mul_inequality(y2 + 1, w, w);
        assert((y1 + 1) * w == y1 * w + w && (y2 + 1) * w == y2 * w + w) by (nonlinear_arith);
    }
}

} // verus!
