//! The Harris pipeline: smoothing, structure tensor, cornerness score and
//! the threshold that turns the scores into a corner map.
//!
//! All stages compute in exact integer arithmetic. A stage that divides in
//! the reals reports its values times a fixed positive factor instead, which
//! the comparisons that follow take into account.

use vstd::prelude::*;
use crate::error::HarrisError;
use crate::filter::Filter;
use crate::filter::apply_filter;
use crate::filter::lemma_response_at_most;
use crate::filter::weight_fn;
use crate::filter::weight_total;
use crate::sobel::Kernel;
use crate::sobel::KernelDir;
use crate::sobel::Sobel;
use crate::sobel::derivative;
use crate::sobel::first_table;
use crate::sobel::lemma_table_peak;
use crate::sobel::second_table;
use crate::sobel::table_grid;
use crate::sums::columns;
use crate::sums::sum;
use crate::window::Grid;
use crate::window::convolve;
use crate::window::lemma_cell_of_index;
use crate::window::lemma_response_bounded;
use crate::window::nonnegative;
use crate::window::response_at;
use crate::window::sample_grid;
use crate::window::samples;
use crate::window::values;
use crate::window::within;

verus! {

/// The Harris corner detector.
pub struct Harris {}

/// The divisor of the smoothing kernel's weights.
pub const GAUSSIAN_DIVISOR: u32 = 273;

/// The divisor of the box kernel's weights.
pub const BOX_DIVISOR: u32 = 25;

/// The factor by which the reported scores exceed the cornerness scores.
pub const SCORE_DIVISOR: u32 = 12500;

/// The integer weights of the five-by-five smoothing kernel, row by row;
/// each stands for the integer over 273.
pub open spec fn gaussian_weights() -> Seq<int> {
    seq![
        1int, 4, 7, 4, 1,
        4, 16, 26, 16, 4,
        7, 26, 41, 26, 7,
        4, 16, 26, 16, 4,
        1, 4, 7, 4, 1,
    ]
}

/// The smoothing kernel as a grid.
pub open spec fn gaussian_grid() -> Grid {
    Grid { cells: gaussian_weights(), width: 5, height: 5 }
}

/// The five-by-five box kernel as a grid: every weight is one, and stands
/// for one over 25.
pub open spec fn box_grid() -> Grid {
    Grid { cells: Seq::new(25, |i: int| 1int), width: 5, height: 5 }
}

/// The smoothed image: at each pixel the response of the smoothing kernel,
/// divided by the kernel's divisor and cut down to a whole number.
pub open spec fn smooth(image: Grid) -> Grid {
    Grid {
        cells: Seq::new(
            (image.width * image.height) as nat,
            |i: int| convolve(image, gaussian_grid())[i] / 273,
        ),
        width: image.width,
        height: image.height,
    }
}

/// One component of the structure tensor of a smoothed image: the products
/// of derivatives in the given direction, summed over the box kernel's
/// window. The values are 25 times the box-smoothed component.
pub open spec fn tensor(smoothed: Grid, dir: KernelDir) -> Seq<int> {
    convolve(
        Grid {
            cells: derivative(smoothed, Kernel::X3, dir),
            width: smoothed.width,
            height: smoothed.height,
        },
        box_grid(),
    )
}

/// The cornerness score from the three tensor components at one pixel, each
/// given as 25 times its value: the determinant plus a twentieth of the
/// squared trace, times 12500.
pub open spec fn score(xx: int, xy: int, yy: int) -> int {
    20 * (xx * yy - xy * xy) + (xx + yy) * (xx + yy)
}

/// The score at every pixel of a smoothed image, row by row, each times
/// 12500.
pub open spec fn cornerness(smoothed: Grid) -> Seq<int> {
    Seq::new(
        (smoothed.width * smoothed.height) as nat,
        |i: int|
            score(
                tensor(smoothed, KernelDir::XX)[i],
                tensor(smoothed, KernelDir::XY)[i],
                tensor(smoothed, KernelDir::YY)[i],
            ),
    )
}

/// The greatest of the first `n` elements of `s`, for `n` at least one.
pub open spec fn greatest_of_first(s: Seq<int>, n: int) -> int
    decreases n,
{
    if n <= 1 {
        s[0]
    } else {
        let rest = greatest_of_first(s, n - 1);
        if s[n - 1] > rest {
            s[n - 1]
        } else {
            rest
        }
    }
}

/// The greatest element of a sequence that is not empty.
pub open spec fn greatest(s: Seq<int>) -> int {
    greatest_of_first(s, s.len() as int)
}

/// The corner map of a response grid: 255 where the response exceeds a
/// sixth of the greatest response, zero elsewhere.
pub open spec fn threshold(response: Seq<int>) -> Seq<u8> {
    Seq::new(
        response.len(),
        |i: int|
            if 6 * response[i] > greatest(response) {
                255u8
            } else {
                0u8
            },
    )
}

/// The corner map of an image of 8-bit samples.
pub open spec fn corner_map(image: Seq<u8>, width: int, height: int) -> Seq<u8> {
    threshold(cornerness(smooth(sample_grid(image, width, height))))
}

/// The dimensions fit the number of samples, and neither is zero.
pub open spec fn valid_dimensions(samples: int, width: int, height: int) -> bool {
    &&& width > 0
    &&& height > 0
    &&& samples == width * height
}

/// The greatest of the first `n` elements is one of them, and none of them
/// exceeds it.
pub proof fn lemma_greatest_of_first(s: Seq<int>, n: int)
    requires
        1 <= n <= s.len(),
    ensures
        exists|i: int| 0 <= i < n && s[i] == greatest_of_first(s, n),
        forall|j: int| 0 <= j < n ==> s[j] <= greatest_of_first(s, n),
    decreases n,
{
    if n > 1 {
        lemma_greatest_of_first(s, n - 1);
        let i = choose|i: int| 0 <= i < n - 1 && s[i] == greatest_of_first(s, n - 1);
        if s[n - 1] > greatest_of_first(s, n - 1) {
            assert(s[n - 1] == greatest_of_first(s, n));
        } else {
            assert(s[i] == greatest_of_first(s, n));
        }
    } else {
        assert(s[0] == greatest_of_first(s, n));
    }
}

/// The weights of the smoothing kernel sum to its divisor.
pub proof fn lemma_gaussian_total()
    ensures
        weight_total(gaussian_grid()) == 273,
{
    let f = weight_fn(gaussian_grid());
    let cols = columns(f, 0, 5);
    reveal_with_fuel(sum, 6);
    assert(cols(0) == 17);
    assert(cols(1) == 66);
    assert(cols(2) == 107);
    assert(cols(3) == 66);
    assert(cols(4) == 17);
}

/// The smoothing kernel: a five-by-five bell whose weights sum to one.
pub fn gaussian_kernel() -> (filter: Filter)
    ensures
        filter.wf(),
        filter.unity_sum(),
        filter.grid() == gaussian_grid(),
        filter.spec_divisor() == GAUSSIAN_DIVISOR,
{
    let weights: Vec<i32> = vec![
        1, 4, 7, 4, 1,
        4, 16, 26, 16, 4,
        7, 26, 41, 26, 7,
        4, 16, 26, 16, 4,
        1, 4, 7, 4, 1,
    ];
    proof {
        assert(samples(weights@) =~= gaussian_weights());
        lemma_gaussian_total();
    }
    Filter::new(weights, 5, 5, GAUSSIAN_DIVISOR).unwrap()
}

/// The box kernel: five by five, every weight one over 25.
pub fn box_kernel() -> (filter: Filter)
    ensures
        filter.wf(),
        filter.grid() == box_grid(),
        filter.spec_divisor() == BOX_DIVISOR,
{
    let weights: Vec<i32> = vec![1; 25];
    proof {
        assert(samples(weights@) =~= box_grid().cells);
    }
    Filter::new(weights, 5, 5, BOX_DIVISOR).unwrap()
}

/// Every value of the derivative operator on 8-bit samples fits in 32 bits
/// with room to spare.
proof fn lemma_derivative_bounded(image: Grid, dir: KernelDir, i: int)
    requires
        image.wf(),
        within(image, 0, 255),
        0 <= i < image.width * image.height,
    ensures
        -21068100 <= derivative(image, Kernel::X3, dir)[i] <= 21068100,
{
    let c = i % image.width;
    let r = i / image.width;
    lemma_cell_of_index(i, image.width, image.height);
    lemma_table_peak(Kernel::X3, dir);
    let ka = table_grid(Kernel::X3, first_table(Kernel::X3, dir));
    let kb = table_grid(Kernel::X3, second_table(Kernel::X3, dir));
    assert(within(image, -255, 255));
    lemma_response_bounded(image, ka, 255, 2, c, r);
    lemma_response_bounded(image, kb, 255, 2, c, r);
    let a = response_at(image, ka, c, r);
    let b = response_at(image, kb, c, r);
    assert(-21068100 <= a * b <= 21068100) by (nonlinear_arith)
        requires
            -4590 <= a <= 4590,
            -4590 <= b <= 4590,
    ;
}

/// Every value of a tensor component of a grid of 8-bit samples is bounded.
proof fn lemma_tensor_bounded(image: Grid, dir: KernelDir, i: int)
    requires
        image.wf(),
        within(image, 0, 255),
        0 <= i < image.width * image.height,
    ensures
        -526702500 <= tensor(image, dir)[i] <= 526702500,
{
    let products = Grid {
        cells: derivative(image, Kernel::X3, dir),
        width: image.width,
        height: image.height,
    };
    assert forall|j: int| 0 <= j < products.cells.len() implies -21068100
        <= #[trigger] products.cells[j] <= 21068100 by {
        lemma_derivative_bounded(image, dir, j);
    }
    lemma_cell_of_index(i, image.width, image.height);
    lemma_response_bounded(products, box_grid(), 21068100, 1, i % image.width, i / image.width);
}

/// The values of a sequence as 32-bit integers, where all of them fit.
fn narrowed(wide: &Vec<i128>) -> (out: Vec<i32>)
    requires
        forall|i: int| 0 <= i < wide.len() ==> i32::MIN <= #[trigger] wide[i] <= i32::MAX,
    ensures
        out.len() == wide.len(),
        samples(out@) == values(wide@),
{
    let mut out: Vec<i32> = Vec::new();
    let mut i: usize = 0;
    while i < wide.len()
        invariant
            forall|j: int| 0 <= j < wide.len() ==> i32::MIN <= #[trigger] wide[j] <= i32::MAX,
            i <= wide.len(),
            out.len() == i,
            forall|j: int| 0 <= j < i ==> #[trigger] out[j] == wide[j],
        decreases wide.len() - i,
    {
        out.push(wide[i] as i32);
        i = i + 1;
    }
    proof {
        assert(samples(out@) =~= values(wide@));
    }
    out
}

/// The smoothed 8-bit samples from the smoothing kernel's responses.
fn smoothed_samples(scaled: &Vec<i128>) -> (out: Vec<u8>)
    requires
        forall|i: int| 0 <= i < scaled.len() ==> 0 <= #[trigger] scaled[i] <= 255 * 273,
    ensures
        out.len() == scaled.len(),
        forall|i: int| 0 <= i < out.len() ==> #[trigger] out[i] == scaled[i] / 273,
{
    let mut out: Vec<u8> = Vec::new();
    let mut i: usize = 0;
    while i < scaled.len()
        invariant
            forall|j: int| 0 <= j < scaled.len() ==> 0 <= #[trigger] scaled[j] <= 255 * 273,
            i <= scaled.len(),
            out.len() == i,
            forall|j: int| 0 <= j < i ==> #[trigger] out[j] == scaled[j] / 273,
        decreases scaled.len() - i,
    {
        let quotient = scaled[i] / 273;
        out.push(quotient as u8);
        i = i + 1;
    }
    out
}

/// The cornerness score at every pixel of a smoothed image, in row-major
/// order, each times 12500.
pub fn calculate_response_matrix(filtered_image: &[u8], width: usize, height: usize) -> (buf: Vec<
    i128,
>)
    requires
        filtered_image.len() == width * height,
    ensures
        buf.len() == width * height,
        values(buf@) == cornerness(sample_grid(filtered_image@, width as int, height as int)),
{
    let ghost grid = sample_grid(filtered_image@, width as int, height as int);
    let sobel = Sobel::new().kernel(Kernel::X3);
    let ixx = sobel.apply(filtered_image, width, height, KernelDir::XX);
    let ixy = sobel.apply(filtered_image, width, height, KernelDir::XY);
    let iyy = sobel.apply(filtered_image, width, height, KernelDir::YY);
    proof {
        assert(within(grid, 0, 255));
        assert forall|i: int| 0 <= i < ixx.len() implies i32::MIN <= #[trigger] ixx[i]
            <= i32::MAX by {
            lemma_derivative_bounded(grid, KernelDir::XX, i);
            assert(values(ixx@)[i] == ixx[i]);
        }
        assert forall|i: int| 0 <= i < ixy.len() implies i32::MIN <= #[trigger] ixy[i]
            <= i32::MAX by {
            lemma_derivative_bounded(grid, KernelDir::XY, i);
            assert(values(ixy@)[i] == ixy[i]);
        }
        assert forall|i: int| 0 <= i < iyy.len() implies i32::MIN <= #[trigger] iyy[i]
            <= i32::MAX by {
            lemma_derivative_bounded(grid, KernelDir::YY, i);
            assert(values(iyy@)[i] == iyy[i]);
        }
    }
    let ixx = narrowed(&ixx);
    let ixy = narrowed(&ixy);
    let iyy = narrowed(&iyy);
    let filter = box_kernel();
    let ixx = apply_filter(ixx.as_slice(), width, height, &filter);
    let ixy = apply_filter(ixy.as_slice(), width, height, &filter);
    let iyy = apply_filter(iyy.as_slice(), width, height, &filter);
    let ghost expected = cornerness(grid);
    proof {
        assert(values(ixx@) == tensor(grid, KernelDir::XX));
        assert(values(ixy@) == tensor(grid, KernelDir::XY));
        assert(values(iyy@) == tensor(grid, KernelDir::YY));
    }
    let n = filtered_image.len();
    let mut buf: Vec<i128> = Vec::new();
    let mut index: usize = 0;
    while index < n
        invariant
            n == width * height,
            grid.wf(),
            grid.width == width,
            grid.height == height,
            within(grid, 0, 255),
            ixx.len() == n,
            ixy.len() == n,
            iyy.len() == n,
            values(ixx@) == tensor(grid, KernelDir::XX),
            values(ixy@) == tensor(grid, KernelDir::XY),
            values(iyy@) == tensor(grid, KernelDir::YY),
            expected == cornerness(grid),
            index <= n,
            buf.len() == index,
            forall|i: int| 0 <= i < index ==> buf[i] as int == #[trigger] expected[i],
        decreases n - index,
    {
        let xx = ixx[index];
        let xy = ixy[index];
        let yy = iyy[index];
        proof {
            lemma_tensor_bounded(grid, KernelDir::XX, index as int);
            lemma_tensor_bounded(grid, KernelDir::XY, index as int);
            lemma_tensor_bounded(grid, KernelDir::YY, index as int);
            assert(values(ixx@)[index as int] == xx);
            assert(values(ixy@)[index as int] == xy);
            assert(values(iyy@)[index as int] == yy);
            assert(-277415523506250000 <= xx * yy <= 277415523506250000 && 0 <= xy * xy
                <= 277415523506250000 && 0 <= (xx + yy) * (xx + yy) <= 1109662094025000000)
                by (nonlinear_arith)
                requires
                    -526702500 <= xx <= 526702500,
                    -526702500 <= xy <= 526702500,
                    -526702500 <= yy <= 526702500,
            ;
        }
        let det = xx * yy - xy * xy;
        let trace = xx + yy;
        buf.push(20 * det + trace * trace);
        index = index + 1;
    }
    proof {
        assert(values(buf@) =~= expected);
    }
    buf
}

/// Thresholds a response grid into a corner map: 255 where the response
/// exceeds a sixth of the greatest response, zero elsewhere. The dimensions,
/// the number of corners and the cell sizes play no part in the result.
#[allow(unused_variables)]
pub fn non_maximal_suppression(
    harris_response: &[i128],
    width: usize,
    height: usize,
    n_corners: usize,
    gx: usize,
    gy: usize,
) -> (result: Result<Vec<u8>, HarrisError>)
    ensures
        harris_response.len() == 0 <==> result is Err,
        result matches Err(e) ==> e == HarrisError::EmptyResponse,
        result matches Ok(map) ==> map@ == threshold(values(harris_response@)),
{
    let n = harris_response.len();
    if n == 0 {
        return Err(HarrisError::EmptyResponse);
    }
    let ghost response = values(harris_response@);
    let mut max_value = harris_response[0];
    let mut i: usize = 1;
    while i < n
        invariant
            n == harris_response.len(),
            response == values(harris_response@),
            1 <= i <= n,
            max_value == greatest_of_first(response, i as int),
        decreases n - i,
    {
        if harris_response[i] > max_value {
            max_value = harris_response[i];
        }
        i = i + 1;
    }
    proof {
        lemma_greatest_of_first(response, n as int);
    }
    let ghost expected = threshold(response);
    let mut map: Vec<u8> = Vec::new();
    let mut j: usize = 0;
    while j < n
        invariant
            n == harris_response.len(),
            response == values(harris_response@),
            expected == threshold(response),
            max_value == greatest(response),
            forall|k: int| 0 <= k < n ==> response[k] <= max_value,
            j <= n,
            map.len() == j,
            forall|k: int| 0 <= k < j ==> #[trigger] map[k] == expected[k],
        decreases n - j,
    {
        let x = harris_response[j];
        proof {
            assert(response[j as int] == x);
        }
        let corner = max_value > 0 && x > max_value / 6;
        map.push(if corner { 255 } else { 0 });
        j = j + 1;
    }
    proof {
        assert(map@ =~= expected);
    }
    Ok(map)
}

/// The corner map of a grayscale image of `width` columns and `height`
/// rows, given as 8-bit samples in row-major order: 255 marks a candidate
/// corner, zero any other pixel.
pub fn calculate_harris_matrix(image: &[u8], width: usize, height: usize) -> (result: Result<
    Vec<u8>,
    HarrisError,
>)
    ensures
        valid_dimensions(image@.len() as int, width as int, height as int) <==> result is Ok,
        result matches Err(e) ==> e == HarrisError::InvalidDimensions,
        result matches Ok(map) ==> map.len() == width * height && map@ == corner_map(
            image@,
            width as int,
            height as int,
        ),
{
    if width == 0 || height == 0 {
        return Err(HarrisError::InvalidDimensions);
    }
    let n = image.len();
    let fits = match width.checked_mul(height) {
        Some(cells) => cells == n,
        None => false,
    };
    if !fits {
        return Err(HarrisError::InvalidDimensions);
    }
    let ghost grid = sample_grid(image@, width as int, height as int);
    let filter = gaussian_kernel();
    let scaled = apply_filter(image, width, height, &filter);
    proof {
        assert(within(grid, 0, 255));
        assert(nonnegative(gaussian_grid()));
        assert forall|i: int| 0 <= i < scaled.len() implies 0 <= #[trigger] scaled[i] <= 255
            * 273 by {
            lemma_cell_of_index(i, width as int, height as int);
            lemma_response_at_most(grid, gaussian_grid(), 255, i % (width as int), i / (width as int));
            assert(values(scaled@)[i] == scaled[i]);
        }
    }
    let filtered_image = smoothed_samples(&scaled);
    proof {
        assert forall|i: int| 0 <= i < filtered_image.len() implies samples(filtered_image@)[i]
            == #[trigger] smooth(grid).cells[i] by {
            assert(values(scaled@)[i] == scaled[i]);
        }
        assert(samples(filtered_image@) =~= smooth(grid).cells);
        assert(sample_grid(filtered_image@, width as int, height as int) == smooth(grid));
        assert(0 < width * height) by (nonlinear_arith)
            requires
                0 < width,
                0 < height,
        ;
    }
    let response = calculate_response_matrix(filtered_image.as_slice(), width, height);
    non_maximal_suppression(response.as_slice(), width, height, 300, 32, 32)
}

/// A corner map has one entry per response, and every entry is zero or 255.
pub proof fn lemma_threshold_binary(response: Seq<int>)
    ensures
        threshold(response).len() == response.len(),
        forall|i: int|
            0 <= i < response.len() ==> #[trigger] threshold(response)[i] == 0 || threshold(
                response,
            )[i] == 255,
{
}

/// Threshold idempotence. Thresholding a corner map, read as a response
/// grid, gives the same corner map again.
pub proof fn lemma_threshold_idempotent(response: Seq<int>)
    ensures
        threshold(samples(threshold(response))) == threshold(response),
{
    let map = threshold(response);
    let again = samples(map);
    if response.len() > 0 {
        lemma_greatest_of_first(again, again.len() as int);
        let top = greatest(again);
        let at = choose|i: int| 0 <= i < again.len() && again[i] == top;
        assert(again[at] == map[at] as int);
        assert(top == 0 || top == 255);
        assert forall|i: int| 0 <= i < map.len() implies #[trigger] threshold(again)[i]
            == map[i] by {
            assert(again[i] == map[i] as int);
        }
    }
    assert(threshold(again) =~= map);
}

/// Determinism. The corner map depends on nothing but the samples and the
/// dimensions: images with the same samples and dimensions have the same
/// corner map.
pub proof fn lemma_corner_map_deterministic(
    image: Seq<u8>,
    other: Seq<u8>,
    width: int,
    height: int,
)
    requires
        image.len() == other.len(),
        forall|i: int| 0 <= i < image.len() ==> image[i] == other[i],
    ensures
        corner_map(image, width, height) == corner_map(other, width, height),
{
    assert(image =~= other);
}

} // verus!
