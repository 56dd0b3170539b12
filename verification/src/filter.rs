//! The convolution engine: a kernel of rational weights laid over every
//! pixel of a grid of samples.
//!
//! A kernel holds integer weights and one positive divisor; the weight at a
//! cell is the integer there over the divisor. Responses are reported as
//! integers too: each is the true response times the kernel's divisor.

use vstd::prelude::*;
use crate::error::HarrisError;
use crate::sums::sum2;
use crate::sums::lemma_sum2_monotone;
use crate::sums::lemma_sum2_nonnegative;
use crate::sums::lemma_sum2_reflected_x;
use crate::sums::lemma_sum2_reflected_y;
use crate::sums::lemma_sum2_scaled;
use crate::sums::lemma_sum2_shifted;
use crate::sums::lemma_sum2_widen;
use crate::window::Grid;
use crate::window::convolve;
use crate::window::lemma_cell_index;
use crate::window::lower;
use crate::window::nonnegative;
use crate::window::response_at;
use crate::window::sample_grid;
use crate::window::taps;
use crate::window::upper;
use crate::window::values;
use crate::window::window_response;
use crate::window::within;

verus! {

/// A sample type that can be read as a 32-bit signed integer.
pub trait ImagePixel: Copy {
    /// The integer that the sample stands for.
    spec fn spec_to_i32(self) -> i32;

    /// The sample as a 32-bit signed integer.
    fn to_i32(self) -> (r: i32)
        ensures
            r == self.spec_to_i32(),
    ;
}

impl ImagePixel for u8 {
    open spec fn spec_to_i32(self) -> i32 {
        self as i32
    }

    fn to_i32(self) -> (r: i32) {
        self as i32
    }
}

impl ImagePixel for i32 {
    open spec fn spec_to_i32(self) -> i32 {
        self
    }

    fn to_i32(self) -> (r: i32) {
        self
    }
}

/// A rectangular kernel of rational weights with a common divisor.
pub struct Filter {
    kernel: Vec<i32>,
    width: usize,
    height: usize,
    divisor: u32,
}

/// What a kernel must satisfy: an odd width and an odd height, as many
/// weights as cells, and a divisor that is not zero.
pub open spec fn valid_kernel(weights: int, width: int, height: int, divisor: int) -> bool {
    &&& width % 2 == 1
    &&& height % 2 == 1
    &&& weights == width * height
    &&& divisor > 0
}

impl Filter {
    /// The integer weights, as a grid.
    pub closed spec fn grid(&self) -> Grid {
        sample_grid(self.kernel@, self.width as int, self.height as int)
    }

    /// The divisor that all weights share.
    pub closed spec fn spec_divisor(&self) -> int {
        self.divisor as int
    }

    /// The kernel is valid.
    pub open spec fn wf(&self) -> bool {
        valid_kernel(
            self.grid().cells.len() as int,
            self.grid().width,
            self.grid().height,
            self.spec_divisor(),
        )
    }

    /// The weights sum to the divisor: the rational weights sum to one.
    pub open spec fn unity_sum(&self) -> bool {
        weight_total(self.grid()) == self.spec_divisor()
    }

    /// Builds a kernel of `width` columns and `height` rows from integer
    /// weights in row-major order; the weight at a cell is the integer there
    /// over `divisor`.
    pub fn new(kernel: Vec<i32>, width: usize, height: usize, divisor: u32) -> (result: Result<
        Filter,
        HarrisError,
    >)
        ensures
            valid_kernel(kernel@.len() as int, width as int, height as int, divisor as int)
                <==> result is Ok,
            result matches Ok(filter) ==> {
                &&& filter.wf()
                &&& filter.grid() == sample_grid(kernel@, width as int, height as int)
                &&& filter.spec_divisor() == divisor
            },
            result matches Err(e) ==> e == HarrisError::InvalidKernel,
    {
        if width % 2 != 1 || height % 2 != 1 || divisor == 0 {
            return Err(HarrisError::InvalidKernel);
        }
        let weights = kernel.len();
        match width.checked_mul(height) {
            Some(cells) => {
                if cells == weights {
                    Ok(Filter { kernel, width, height, divisor })
                } else {
                    Err(HarrisError::InvalidKernel)
                }
            },
            None => Err(HarrisError::InvalidKernel),
        }
    }

    /// The divisor that all weights share.
    pub fn divisor(&self) -> (d: u32)
        ensures
            d == self.spec_divisor(),
    {
        self.divisor
    }
}

/// Convolves the image with the kernel under the clamped-window policy. The
/// result has one entry per pixel, in row-major order: the sum, over the
/// window around the pixel cut off at the image's border, of each sample
/// times the integer weight at its offset from the pixel.
pub fn apply_filter<T: ImagePixel>(image: &[T], width: usize, height: usize, filter: &Filter) -> (buf:
    Vec<i128>)
    requires
        filter.wf(),
        image.len() == width * height,
    ensures
        buf.len() == width * height,
        values(buf@) == convolve(sample_grid(image@, width as int, height as int), filter.grid()),
{
    let ghost grid = sample_grid(image@, width as int, height as int);
    let ghost expected = convolve(grid, filter.grid());
    let mut buf: Vec<i128> = Vec::new();
    let mut r: usize = 0;
    while r < height
        invariant
            filter.wf(),
            image.len() == width * height,
            grid == sample_grid(image@, width as int, height as int),
            expected == convolve(grid, filter.grid()),
            r <= height,
            buf.len() == r * width,
            forall|i: int| 0 <= i < buf.len() ==> buf[i] as int == #[trigger] expected[i],
        decreases height - r,
    {
        let mut c: usize = 0;
        while c < width
            invariant
                filter.wf(),
                image.len() == width * height,
                grid == sample_grid(image@, width as int, height as int),
                expected == convolve(grid, filter.grid()),
                r < height,
                c <= width,
                buf.len() == r * width + c,
                forall|i: int| 0 <= i < buf.len() ==> buf[i] as int == #[trigger] expected[i],
            decreases width - c,
        {
            let val = window_response(
                image,
                width,
                height,
                filter.kernel.as_slice(),
                filter.width,
                filter.height,
                c,
                r,
            );
            proof {
                lemma_cell_index(c as int, r as int, width as int, height as int);
                assert(c + r * width == r * width + c) by (nonlinear_arith);
                assert(expected[r * width + c] == response_at(grid, filter.grid(), c as int, r as int));
            }
            buf.push(val);
            c = c + 1;
        }
        proof {
            assert((r + 1) * width == r * width + width) by (nonlinear_arith);
        }
        r = r + 1;
    }
    proof {
        assert(r * width == width * height) by (nonlinear_arith)
            requires
                r == height,
        ;
        assert(values(buf@) =~= expected);
    }
    buf
}

/// The function that gives the weight at each cell of a kernel.
pub open spec fn weight_fn(kernel: Grid) -> spec_fn(int, int) -> int {
    |kx: int, ky: int| kernel.at(kx, ky)
}

/// The sum of all weights of a kernel.
pub open spec fn weight_total(kernel: Grid) -> int {
    sum2(0, kernel.width, 0, kernel.height, weight_fn(kernel))
}

/// The weight that meets the sample at `(x, y)` when the kernel lies over
/// pixel `(c, r)`.
spec fn met(kernel: Grid, c: int, r: int) -> spec_fn(int, int) -> int {
    |x: int, y: int| kernel.at(x - c + kernel.width / 2, y - r + kernel.height / 2)
}

/// The weights that the window around `(c, r)` meets sum to a part of the
/// kernel: the rectangle of cells whose samples lie inside the image.
proof fn lemma_met_weights(image: Grid, kernel: Grid, c: int, r: int)
    requires
        image.wf(),
        kernel.is_kernel(),
        0 <= c < image.width,
        0 <= r < image.height,
    ensures
        sum2(
            lower(c, kernel.width / 2),
            upper(c, kernel.width / 2, image.width) + 1,
            lower(r, kernel.height / 2),
            upper(r, kernel.height / 2, image.height) + 1,
            met(kernel, c, r),
        ) == sum2(
            lower(c, kernel.width / 2) - c + kernel.width / 2,
            upper(c, kernel.width / 2, image.width) + 1 - c + kernel.width / 2,
            lower(r, kernel.height / 2) - r + kernel.height / 2,
            upper(r, kernel.height / 2, image.height) + 1 - r + kernel.height / 2,
            weight_fn(kernel),
        ),
        0 <= lower(c, kernel.width / 2) - c + kernel.width / 2,
        upper(c, kernel.width / 2, image.width) + 1 - c + kernel.width / 2 <= kernel.width,
        0 <= lower(r, kernel.height / 2) - r + kernel.height / 2,
        upper(r, kernel.height / 2, image.height) + 1 - r + kernel.height / 2 <= kernel.height,
{
    let bx = kernel.width / 2;
    let by = kernel.height / 2;
    let g = met(kernel, c, r);
    let w = weight_fn(kernel);
    assert forall|x: int, y: int|
        lower(c, bx) <= x < upper(c, bx, image.width) + 1 && lower(r, by) <= y < upper(
            r,
            by,
            image.height,
        ) + 1 implies #[trigger] g(x, y) == w(x + (bx - c), y + (by - r)) by {}
    lemma_sum2_shifted(
        lower(c, bx),
        upper(c, bx, image.width) + 1,
        lower(r, by),
        upper(r, by, image.height) + 1,
        g,
        w,
        bx - c,
        by - r,
    );
}

/// With samples between zero and `max` and weights that are nowhere
/// negative, a response lies between zero and `max` times the sum of all
/// weights, however much of the window the border cuts off.
pub proof fn lemma_response_at_most(image: Grid, kernel: Grid, max: int, c: int, r: int)
    requires
        image.wf(),
        kernel.is_kernel(),
        0 <= c < image.width,
        0 <= r < image.height,
        within(image, 0, max),
        nonnegative(kernel),
    ensures
        0 <= response_at(image, kernel, c, r) <= max * weight_total(kernel),
{
    let bx = kernel.width / 2;
    let by = kernel.height / 2;
    let x0 = lower(c, bx);
    let x1 = upper(c, bx, image.width) + 1;
    let y0 = lower(r, by);
    let y1 = upper(r, by, image.height) + 1;
    let f = taps(image, kernel, c, r);
    let g = met(kernel, c, r);
    let h = |x: int, y: int| max * g(x, y);
    let w = weight_fn(kernel);
    assert forall|x: int, y: int| x0 <= x < x1 && y0 <= y < y1 implies 0 <= #[trigger] f(x, y)
        && f(x, y) <= h(x, y) by {
        lemma_cell_index(x, y, image.width, image.height);
        lemma_cell_index(x - c + bx, y - r + by, kernel.width, kernel.height);
        let s = image.at(x, y);
        let k = g(x, y);
        assert(0 <= s <= max);
        assert(0 <= k);
        assert(0 <= s * k <= max * k) by (nonlinear_arith)
            requires
                0 <= s <= max,
                0 <= k,
        ;
    }
    lemma_sum2_nonnegative(x0, x1, y0, y1, f);
    assert forall|x: int, y: int| x0 <= x < x1 && y0 <= y < y1 implies #[trigger] f(x, y) <= h(
        x,
        y,
    ) by {
        assert(0 <= f(x, y) && f(x, y) <= h(x, y));
    }
    lemma_sum2_monotone(x0, x1, y0, y1, f, h);
    lemma_sum2_scaled(x0, x1, y0, y1, g, h, max);
    lemma_met_weights(image, kernel, c, r);
    assert forall|kx: int, ky: int|
        0 <= kx < kernel.width && 0 <= ky < kernel.height implies 0 <= #[trigger] w(kx, ky) by {
        lemma_cell_index(kx, ky, kernel.width, kernel.height);
    }
    lemma_sum2_widen(
        x0 - c + bx,
        x1 - c + bx,
        y0 - r + by,
        y1 - r + by,
        0,
        kernel.width,
        0,
        kernel.height,
        w,
    );
    let part = sum2(x0, x1, y0, y1, g);
    let total = weight_total(kernel);
    lemma_cell_index(c, r, image.width, image.height);
    assert(0 <= image.cells[c + r * image.width] <= max);
    assert(max * part <= max * total) by (nonlinear_arith)
        requires
            0 <= max,
            part <= total,
    ;
}

/// On an image whose samples all equal `v`, a response whose window the
/// border does not cut off is `v` times the sum of all weights.
pub proof fn lemma_response_whole(image: Grid, kernel: Grid, v: int, c: int, r: int)
    requires
        image.wf(),
        kernel.is_kernel(),
        within(image, v, v),
        kernel.width / 2 <= c < image.width - kernel.width / 2,
        kernel.height / 2 <= r < image.height - kernel.height / 2,
    ensures
        response_at(image, kernel, c, r) == v * weight_total(kernel),
{
    let bx = kernel.width / 2;
    let by = kernel.height / 2;
    let x0 = lower(c, bx);
    let x1 = upper(c, bx, image.width) + 1;
    let y0 = lower(r, by);
    let y1 = upper(r, by, image.height) + 1;
    let f = taps(image, kernel, c, r);
    let g = met(kernel, c, r);
    assert forall|x: int, y: int| x0 <= x < x1 && y0 <= y < y1 implies #[trigger] f(x, y) == v
        * g(x, y) by {
        lemma_cell_index(x, y, image.width, image.height);
        assert(image.at(x, y) == v);
    }
    lemma_sum2_scaled(x0, x1, y0, y1, g, f, v);
    lemma_met_weights(image, kernel, c, r);
}

/// Boundary attenuation. On an image whose samples all equal `v`, with `v`
/// and all weights not negative, the response at each of the four corner
/// pixels is at most the response at the centre pixel, provided the border
/// does not cut the centre pixel's window.
pub proof fn lemma_boundary_attenuation(image: Grid, kernel: Grid, v: int, c: int, r: int)
    requires
        image.wf(),
        kernel.is_kernel(),
        within(image, v, v),
        nonnegative(kernel),
        0 <= v,
        kernel.width / 2 <= image.width / 2 < image.width - kernel.width / 2,
        kernel.height / 2 <= image.height / 2 < image.height - kernel.height / 2,
        c == 0 || c == image.width - 1,
        r == 0 || r == image.height - 1,
    ensures
        response_at(image, kernel, c, r) <= response_at(
            image,
            kernel,
            image.width / 2,
            image.height / 2,
        ),
{
    assert(within(image, 0, v));
    lemma_response_at_most(image, kernel, v, c, r);
    lemma_response_whole(image, kernel, v, image.width / 2, image.height / 2);
}

/// The grid is its own mirror image from left to right, up to the factor
/// `sign`: every cell is `sign` times the cell opposite it in its row.
pub open spec fn mirror_x(grid: Grid, sign: int) -> bool {
    forall|x: int, y: int|
        0 <= x < grid.width && 0 <= y < grid.height ==> #[trigger] grid.at(x, y) == sign * grid.at(
            grid.width - 1 - x,
            y,
        )
}

/// The grid is its own mirror image from top to bottom, up to the factor
/// `sign`: every cell is `sign` times the cell opposite it in its column.
pub open spec fn mirror_y(grid: Grid, sign: int) -> bool {
    forall|x: int, y: int|
        0 <= x < grid.width && 0 <= y < grid.height ==> #[trigger] grid.at(x, y) == sign * grid.at(
            x,
            grid.height - 1 - y,
        )
}

/// Symmetry from left to right. On an image that is its own mirror image
/// from left to right, a kernel that is its own mirror image up to `sign`
/// gives a response that is its own mirror image up to `sign`: a symmetric
/// kernel (`sign` one) a symmetric response, an antisymmetric kernel (`sign`
/// minus one) an antisymmetric response.
pub proof fn lemma_mirror_x(image: Grid, kernel: Grid, sign: int, c: int, r: int)
    requires
        image.wf(),
        kernel.is_kernel(),
        0 <= c < image.width,
        0 <= r < image.height,
        mirror_x(image, 1),
        mirror_x(kernel, sign),
    ensures
        response_at(image, kernel, c, r) == sign * response_at(
            image,
            kernel,
            image.width - 1 - c,
            r,
        ),
{
    let bx = kernel.width / 2;
    let by = kernel.height / 2;
    let x0 = lower(c, bx);
    let x1 = upper(c, bx, image.width) + 1;
    let y0 = lower(r, by);
    let y1 = upper(r, by, image.height) + 1;
    let last = image.width - 1;
    let f = taps(image, kernel, c, r);
    let opposite = taps(image, kernel, last - c, r);
    let h = |x: int, y: int| opposite(last - x, y);
    assert forall|x: int, y: int| x0 <= x < x1 && y0 <= y < y1 implies #[trigger] f(x, y) == sign
        * h(x, y) by {
        let kx = x - c + bx;
        let ky = y - r + by;
        lemma_cell_index(kx, ky, kernel.width, kernel.height);
        assert(image.at(x, y) == 1 * image.at(last - x, y));
        assert(kernel.at(kx, ky) == sign * kernel.at(kernel.width - 1 - kx, ky));
        let s = image.at(last - x, y);
        let w = kernel.at(kernel.width - 1 - kx, ky);
        assert(h(x, y) == s * w);
        assert(s * (sign * w) == sign * (s * w)) by (nonlinear_arith);
    }
    lemma_sum2_scaled(x0, x1, y0, y1, h, f, sign);
    lemma_sum2_reflected_x(x0, x1, y0, y1, h, opposite, last);
}

/// Symmetry from top to bottom. On an image that is its own mirror image
/// from top to bottom, a kernel that is its own mirror image up to `sign`
/// gives a response that is its own mirror image up to `sign`.
pub proof fn lemma_mirror_y(image: Grid, kernel: Grid, sign: int, c: int, r: int)
    requires
        image.wf(),
        kernel.is_kernel(),
        0 <= c < image.width,
        0 <= r < image.height,
        mirror_y(image, 1),
        mirror_y(kernel, sign),
    ensures
        response_at(image, kernel, c, r) == sign * response_at(
            image,
            kernel,
            c,
            image.height - 1 - r,
        ),
{
    let bx = kernel.width / 2;
    let by = kernel.height / 2;
    let x0 = lower(c, bx);
    let x1 = upper(c, bx, image.width) + 1;
    let y0 = lower(r, by);
    let y1 = upper(r, by, image.height) + 1;
    let last = image.height - 1;
    let f = taps(image, kernel, c, r);
    let opposite = taps(image, kernel, c, last - r);
    let h = |x: int, y: int| opposite(x, last - y);
    assert forall|x: int, y: int| x0 <= x < x1 && y0 <= y < y1 implies #[trigger] f(x, y) == sign
        * h(x, y) by {
        let kx = x - c + bx;
        let ky = y - r + by;
        lemma_cell_index(kx, ky, kernel.width, kernel.height);
        assert(image.at(x, y) == 1 * image.at(x, last - y));
        assert(kernel.at(kx, ky) == sign * kernel.at(kx, kernel.height - 1 - ky));
        let s = image.at(x, last - y);
        let w = kernel.at(kx, kernel.height - 1 - ky);
        assert(h(x, y) == s * w);
        assert(s * (sign * w) == sign * (s * w)) by (nonlinear_arith);
    }
    lemma_sum2_scaled(x0, x1, y0, y1, h, f, sign);
    lemma_sum2_reflected_y(x0, x1, y0, y1, h, opposite, last);
}

} // verus!
