//! The clamped window: which samples and which weights meet when a kernel is
//! laid over a pixel, and the weighted sum over that window.
//!
//! Near a border the window is cut off at the grid's edge. The weight that
//! meets a sample is still the one at the sample's offset from the pixel, so
//! the weights of a cut-off window are not rescaled.

use vstd::prelude::*;
use vstd::arithmetic::div_mod::lemma_fundamental_div_mod;
use vstd::arithmetic::div_mod::lemma_fundamental_div_mod_converse;
use crate::filter::ImagePixel;
use crate::sums::sum;
use crate::sums::sum2;
use crate::sums::along;
use crate::sums::columns;
use crate::sums::lemma_sum2_bounded;

verus! {

/// A rectangular grid of integers, stored row by row: the cell in column `x`
/// of row `y` is `cells[x + y * width]`.
pub struct Grid {
    pub cells: Seq<int>,
    pub width: int,
    pub height: int,
}

impl Grid {
    /// The grid holds exactly `width * height` cells.
    pub open spec fn wf(self) -> bool {
        &&& 0 <= self.width
        &&& 0 <= self.height
        &&& self.cells.len() == self.width * self.height
    }

    /// The cell in column `x` of row `y`.
    pub open spec fn at(self, x: int, y: int) -> int {
        self.cells[x + y * self.width]
    }

    /// A grid that can serve as a kernel: well formed, with an odd width and
    /// an odd height, so that it has a centre cell.
    pub open spec fn is_kernel(self) -> bool {
        &&& self.wf()
        &&& self.width % 2 == 1
        &&& self.height % 2 == 1
    }
}

/// The integers that a sequence of samples stands for.
pub open spec fn samples<T: ImagePixel>(image: Seq<T>) -> Seq<int> {
    Seq::new(image.len(), |i: int| image[i].spec_to_i32() as int)
}

/// The grid of `width` columns and `height` rows that a sequence of samples
/// stands for.
pub open spec fn sample_grid<T: ImagePixel>(image: Seq<T>, width: int, height: int) -> Grid {
    Grid { cells: samples(image), width, height }
}

/// The values of a sequence of 128-bit integers.
pub open spec fn values(v: Seq<i128>) -> Seq<int> {
    Seq::new(v.len(), |i: int| v[i] as int)
}

/// The first index of the window of half-extent `half` around `center`.
pub open spec fn lower(center: int, half: int) -> int {
    if center < half {
        0
    } else {
        center - half
    }
}

/// The last index of the window of half-extent `half` around `center`, on an
/// axis of `len` cells.
pub open spec fn upper(center: int, half: int, len: int) -> int {
    if center + half > len - 1 {
        len - 1
    } else {
        center + half
    }
}

/// The product that the sample at `(x, y)` contributes to the response at
/// pixel `(c, r)`: the sample times the weight at the sample's offset from
/// the pixel, counted from the kernel's centre.
pub open spec fn taps(image: Grid, kernel: Grid, c: int, r: int) -> spec_fn(int, int) -> int {
    |x: int, y: int|
        image.at(x, y) * kernel.at(x - c + kernel.width / 2, y - r + kernel.height / 2)
}

/// The response at pixel `(c, r)`: the sum of the products over the clamped
/// window around the pixel.
pub open spec fn response_at(image: Grid, kernel: Grid, c: int, r: int) -> int {
    sum2(
        lower(c, kernel.width / 2),
        upper(c, kernel.width / 2, image.width) + 1,
        lower(r, kernel.height / 2),
        upper(r, kernel.height / 2, image.height) + 1,
        taps(image, kernel, c, r),
    )
}

/// The response grid, row by row: one response per pixel of the image.
pub open spec fn convolve(image: Grid, kernel: Grid) -> Seq<int> {
    Seq::new(
        (image.width * image.height) as nat,
        |i: int| response_at(image, kernel, i % image.width, i / image.width),
    )
}

/// The response grid holds the response at `(c, r)` at index `c + r * width`.
pub proof fn lemma_convolve_at(image: Grid, kernel: Grid, c: int, r: int)
    requires
        image.wf(),
        0 <= c < image.width,
        0 <= r < image.height,
    ensures
        0 <= c + r * image.width < convolve(image, kernel).len(),
        convolve(image, kernel)[c + r * image.width] == response_at(image, kernel, c, r),
{
    lemma_cell_index(c, r, image.width, image.height);
}

/// The index of cell `(x, y)` lies inside the grid, and column and row can be
/// read back from it.
pub proof fn lemma_cell_index(x: int, y: int, width: int, height: int)
    requires
        0 <= x < width,
        0 <= y < height,
    ensures
        0 <= x + y * width < width * height,
        (x + y * width) % width == x,
        (x + y * width) / width == y,
{
    assert(0 <= y * width && (y + 1) * width <= height * width) by (nonlinear_arith)
        requires
            0 <= y < height,
            0 < width,
    ;
    assert((y + 1) * width == y * width + width) by (nonlinear_arith);
    assert(height * width == width * height) by (nonlinear_arith);
    lemma_fundamental_div_mod_converse(x + y * width, width, y, x);
}

/// The cell at index `i` of a grid lies in column `i % width` of row
/// `i / width`, and both lie inside the grid.
pub proof fn lemma_cell_of_index(i: int, width: int, height: int)
    requires
        0 <= width,
        0 <= height,
        0 <= i < width * height,
    ensures
        0 <= i % width < width,
        0 <= i / width < height,
        i == i % width + (i / width) * width,
{
    assert(0 < width) by (nonlinear_arith)
        requires
            0 <= width,
            0 <= i < width * height,
    ;
    lemma_fundamental_div_mod(i, width);
    let q = i / width;
    assert(0 <= q < height) by (nonlinear_arith)
        requires
            0 < width,
            0 <= i < width * height,
            i == width * q + i % width,
            0 <= i % width < width,
    ;
    assert(width * q == q * width) by (nonlinear_arith);
}

/// Every cell of the grid lies between `low` and `high`.
pub open spec fn within(grid: Grid, low: int, high: int) -> bool {
    forall|i: int| 0 <= i < grid.cells.len() ==> low <= #[trigger] grid.cells[i] <= high
}

/// No cell of the grid is negative.
pub open spec fn nonnegative(grid: Grid) -> bool {
    forall|i: int| 0 <= i < grid.cells.len() ==> 0 <= #[trigger] grid.cells[i]
}

/// With samples of absolute value at most `sample_bound` and weights of
/// absolute value at most `weight_bound`, a response is at most the number
/// of weights times the two bounds, in absolute value.
pub proof fn lemma_response_bounded(
    image: Grid,
    kernel: Grid,
    sample_bound: int,
    weight_bound: int,
    c: int,
    r: int,
)
    requires
        image.wf(),
        kernel.is_kernel(),
        0 <= c < image.width,
        0 <= r < image.height,
        within(image, -sample_bound, sample_bound),
        within(kernel, -weight_bound, weight_bound),
    ensures
        -(kernel.width * kernel.height * (weight_bound * sample_bound)) <= response_at(
            image,
            kernel,
            c,
            r,
        ) <= kernel.width * kernel.height * (weight_bound * sample_bound),
{
    let bx = kernel.width / 2;
    let by = kernel.height / 2;
    let x0 = lower(c, bx);
    let x1 = upper(c, bx, image.width) + 1;
    let y0 = lower(r, by);
    let y1 = upper(r, by, image.height) + 1;
    let f = taps(image, kernel, c, r);
    let q = weight_bound * sample_bound;
    lemma_cell_index(c, r, image.width, image.height);
    assert(-sample_bound <= image.cells[c + r * image.width] <= sample_bound);
    lemma_cell_index(bx, by, kernel.width, kernel.height);
    assert(-weight_bound <= kernel.cells[bx + by * kernel.width] <= weight_bound);
    assert(0 <= q) by (nonlinear_arith)
        requires
            0 <= sample_bound,
            0 <= weight_bound,
            q == weight_bound * sample_bound,
    ;
    assert forall|x: int, y: int| x0 <= x < x1 && y0 <= y < y1 implies -q <= #[trigger] f(x, y)
        <= q by {
        lemma_cell_index(x, y, image.width, image.height);
        lemma_cell_index(x - c + bx, y - r + by, kernel.width, kernel.height);
        let s = image.at(x, y);
        let w = kernel.at(x - c + bx, y - r + by);
        assert(-q <= s * w <= q) by (nonlinear_arith)
            requires
                -sample_bound <= s <= sample_bound,
                -weight_bound <= w <= weight_bound,
                q == weight_bound * sample_bound,
        ;
    }
    lemma_sum2_bounded(x0, x1, y0, y1, f, -q, q);
    let nx = x1 - x0;
    let ny = y1 - y0;
    let kw = kernel.width;
    let kh = kernel.height;
    assert(nx * (ny * q) <= kw * kh * q && nx * (ny * -q) >= -(kw * kh * q)) by (nonlinear_arith)
        requires
            0 <= nx <= kw,
            0 <= ny <= kh,
            0 <= q,
    ;
}

/// The weighted sum over the clamped window around pixel `(c, r)`.
pub fn window_response<T: ImagePixel>(
    image: &[T],
    width: usize,
    height: usize,
    kernel: &[i32],
    kw: usize,
    kh: usize,
    c: usize,
    r: usize,
) -> (val: i128)
    requires
        image.len() == width * height,
        kernel.len() == kw * kh,
        kw % 2 == 1,
        kh % 2 == 1,
        c < width,
        r < height,
    ensures
        val == response_at(
            sample_grid(image@, width as int, height as int),
            sample_grid(kernel@, kw as int, kh as int),
            c as int,
            r as int,
        ),
{
    let bx = kw / 2;
    let by = kh / 2;
    let start_x = if c < bx { 0 } else { c - bx };
    let stop_x = if width - 1 - c < bx { width - 1 } else { c + bx };
    let start_y = if r < by { 0 } else { r - by };
    let stop_y = if height - 1 - r < by { height - 1 } else { r + by };
    let skip_x = if c < bx { bx - c } else { 0 };
    let skip_y = if r < by { by - r } else { 0 };
    let ghost grid = sample_grid(image@, width as int, height as int);
    let ghost weights = sample_grid(kernel@, kw as int, kh as int);
    let ghost f = taps(grid, weights, c as int, r as int);
    let ghost cols = columns(f, start_y as int, stop_y + 1);
    let ghost nx = stop_x + 1 - start_x;
    let ghost ny = stop_y + 1 - start_y;
    let ghost total = nx * ny;
    proof {
        assert(nx <= kw && ny <= kh);
        assert(0 <= total <= kw * kh) by (nonlinear_arith)
            requires
                0 < nx <= kw,
                0 < ny <= kh,
                total == nx * ny,
        ;
    }
    let mut val: i128 = 0;
    let mut ix = start_x;
    let ghost mut done: int = 0;
    while ix <= stop_x
        invariant
            image.len() == width * height,
            kernel.len() == kw * kh,
            kw % 2 == 1,
            kh % 2 == 1,
            c < width,
            r < height,
            bx == kw / 2,
            by == kh / 2,
            start_x == lower(c as int, bx as int),
            stop_x == upper(c as int, bx as int, width as int),
            start_y == lower(r as int, by as int),
            stop_y == upper(r as int, by as int, height as int),
            skip_x == start_x + bx - c,
            skip_y == start_y + by - r,
            grid == sample_grid(image@, width as int, height as int),
            weights == sample_grid(kernel@, kw as int, kh as int),
            f == taps(grid, weights, c as int, r as int),
            cols == columns(f, start_y as int, stop_y + 1),
            nx == stop_x + 1 - start_x,
            ny == stop_y + 1 - start_y,
            total == nx * ny,
            0 <= total <= kw * kh,
            start_x <= ix <= stop_x + 1,
            done == (ix - start_x) * ny,
            val == sum(start_x as int, ix as int, cols),
            -done * 0x4000_0000_0000_0000 <= val <= done * 0x4000_0000_0000_0000,
        decreases stop_x + 1 - ix,
    {
        proof {
            assert(done + ny <= total) by (nonlinear_arith)
                requires
                    done == (ix - start_x) * ny,
                    total == nx * ny,
                    ix - start_x + 1 <= nx,
                    0 < ny,
            ;
        }
        let ghost before = val as int;
        let mut iy = start_y;
        while iy <= stop_y
            invariant
                image.len() == width * height,
                kernel.len() == kw * kh,
                kw % 2 == 1,
                kh % 2 == 1,
                c < width,
                r < height,
                bx == kw / 2,
                by == kh / 2,
                start_x == lower(c as int, bx as int),
                stop_x == upper(c as int, bx as int, width as int),
                start_y == lower(r as int, by as int),
                stop_y == upper(r as int, by as int, height as int),
                skip_x == start_x + bx - c,
                skip_y == start_y + by - r,
                grid == sample_grid(image@, width as int, height as int),
                weights == sample_grid(kernel@, kw as int, kh as int),
                f == taps(grid, weights, c as int, r as int),
                ny == stop_y + 1 - start_y,
                0 <= total <= kw * kh,
                done + ny <= total,
                0 <= done,
                start_x <= ix <= stop_x,
                start_y <= iy <= stop_y + 1,
                val == before + sum(start_y as int, iy as int, along(f, ix as int)),
                -(done + (iy - start_y)) * 0x4000_0000_0000_0000 <= val <= (done + (iy - start_y))
                    * 0x4000_0000_0000_0000,
            decreases stop_y + 1 - iy,
        {
            let kx = ix - start_x + skip_x;
            let ky = iy - start_y + skip_y;
            proof {
                lemma_cell_index(ix as int, iy as int, width as int, height as int);
                lemma_cell_index(kx as int, ky as int, kw as int, kh as int);
            }
            let sample = image[ix + iy * width].to_i32();
            let weight = kernel[kx + ky * kw];
            proof {
                assert(-0x4000_0000_0000_0000 <= sample * weight <= 0x4000_0000_0000_0000)
                    by (nonlinear_arith)
                    requires
                        -0x8000_0000 <= sample <= 0x7fff_ffff,
                        -0x8000_0000 <= weight <= 0x7fff_ffff,
                ;
                assert(f(ix as int, iy as int) == sample * weight);
                assert(along(f, ix as int)(iy as int) == sample * weight);
            }
            val = val + (sample as i128) * (weight as i128);
            iy = iy + 1;
        }
        proof {
            assert(cols(ix as int) == sum(start_y as int, stop_y + 1, along(f, ix as int)));
            assert((ix + 1 - start_x) * ny == done + ny) by (nonlinear_arith)
                requires
                    done == (ix - start_x) * ny,
            ;
            done = done + ny;
        }
        ix = ix + 1;
    }
    val
}

} // verus!
