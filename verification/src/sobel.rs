//! The derivative operator: first derivatives of a grid of samples along X
//! and Y, and their pairwise products, from two fixed integer kernels.

use vstd::prelude::*;
use crate::window::Grid;
use crate::filter::ImagePixel;
use crate::filter::lemma_mirror_x;
use crate::filter::lemma_mirror_y;
use crate::filter::mirror_x;
use crate::filter::mirror_y;
use crate::window::lemma_cell_index;
use crate::window::lemma_response_bounded;
use crate::window::response_at;
use crate::window::sample_grid;
use crate::window::samples;
use crate::window::values;
use crate::window::window_response;

verus! {

/// The size of the two derivative kernels.
#[derive(Debug, Clone, Copy, PartialEq, Eq, Structural)]
pub enum Kernel {
    /// Five by five.
    X5,
    /// Three by three.
    X3,
}

/// What the operator computes at each pixel.
#[derive(Debug, Clone, Copy, PartialEq, Eq, Structural)]
pub enum KernelDir {
    /// The derivative along X.
    X,
    /// The derivative along Y.
    Y,
    /// The square of the derivative along X.
    XX,
    /// The square of the derivative along Y.
    YY,
    /// The derivative along X times the derivative along Y.
    XY,
}

impl Kernel {
    /// The number of rows, and of columns, of the kernels.
    pub open spec fn spec_size(self) -> int {
        match self {
            Kernel::X5 => 5,
            Kernel::X3 => 3,
        }
    }

    /// The kernel of the derivative along Y, row by row.
    pub open spec fn spec_y(self) -> Seq<int> {
        match self {
            Kernel::X5 => seq![
                2int, 2, 4, 2, 2,
                1, 1, 2, 1, 1,
                0, 0, 0, 0, 0,
                -1, -1, -2, -1, -1,
                -2, -2, -4, -2, -2,
            ],
            Kernel::X3 => seq![
                -1int, -2, -1,
                0, 0, 0,
                1, 2, 1,
            ],
        }
    }

    /// The kernel of the derivative along X, row by row.
    pub open spec fn spec_x(self) -> Seq<int> {
        match self {
            Kernel::X5 => seq![
                2int, 1, 0, -1, -2,
                2, 1, 0, -1, -2,
                4, 2, 0, -2, -4,
                2, 1, 0, -1, -2,
                2, 1, 0, -1, -2,
            ],
            Kernel::X3 => seq![
                -1int, 0, 1,
                -2, 0, 2,
                -1, 0, 1,
            ],
        }
    }

    /// The largest absolute value among the weights of either kernel.
    pub open spec fn spec_peak(self) -> int {
        match self {
            Kernel::X5 => 4,
            Kernel::X3 => 2,
        }
    }

    /// The number of rows, and of columns, of the kernels.
    pub fn size(self) -> (n: usize)
        ensures
            n == self.spec_size(),
    {
        match self {
            Kernel::X5 => 5,
            Kernel::X3 => 3,
        }
    }

    /// The kernel of the derivative along Y, row by row.
    pub fn y(self) -> (table: Vec<i32>)
        ensures
            samples(table@) == self.spec_y(),
    {
        let table = match self {
            Kernel::X5 => vec![
                2, 2, 4, 2, 2,
                1, 1, 2, 1, 1,
                0, 0, 0, 0, 0,
                -1, -1, -2, -1, -1,
                -2, -2, -4, -2, -2,
            ],
            Kernel::X3 => vec![
                -1, -2, -1,
                0, 0, 0,
                1, 2, 1,
            ],
        };
        assert(samples(table@) =~= self.spec_y());
        table
    }

    /// The kernel of the derivative along X, row by row.
    pub fn x(self) -> (table: Vec<i32>)
        ensures
            samples(table@) == self.spec_x(),
    {
        let table = match self {
            Kernel::X5 => vec![
                2, 1, 0, -1, -2,
                2, 1, 0, -1, -2,
                4, 2, 0, -2, -4,
                2, 1, 0, -1, -2,
                2, 1, 0, -1, -2,
            ],
            Kernel::X3 => vec![
                -1, 0, 1,
                -2, 0, 2,
                -1, 0, 1,
            ],
        };
        assert(samples(table@) =~= self.spec_x());
        table
    }
}

impl KernelDir {
    /// The direction asks for a product of two derivatives.
    pub open spec fn is_product(self) -> bool {
        self is XX || self is YY || self is XY
    }
}

/// The kernel of the first derivative that a direction takes.
pub open spec fn first_table(kernel: Kernel, dir: KernelDir) -> Seq<int> {
    match dir {
        KernelDir::X => kernel.spec_x(),
        KernelDir::Y => kernel.spec_y(),
        KernelDir::XX => kernel.spec_x(),
        KernelDir::YY => kernel.spec_y(),
        KernelDir::XY => kernel.spec_x(),
    }
}

/// The kernel of the second derivative that a product direction takes.
pub open spec fn second_table(kernel: Kernel, dir: KernelDir) -> Seq<int> {
    match dir {
        KernelDir::X => kernel.spec_x(),
        KernelDir::Y => kernel.spec_y(),
        KernelDir::XX => kernel.spec_x(),
        KernelDir::YY => kernel.spec_y(),
        KernelDir::XY => kernel.spec_y(),
    }
}

/// A kernel table as a square grid of weights.
pub open spec fn table_grid(kernel: Kernel, table: Seq<int>) -> Grid {
    Grid { cells: table, width: kernel.spec_size(), height: kernel.spec_size() }
}

/// The operator's value at pixel `(c, r)`: the response of the first kernel
/// over the clamped window, and for a product direction that response times
/// the response of the second kernel over the same window.
pub open spec fn derivative_at(image: Grid, kernel: Kernel, dir: KernelDir, c: int, r: int) -> int {
    let first = response_at(image, table_grid(kernel, first_table(kernel, dir)), c, r);
    let second = response_at(image, table_grid(kernel, second_table(kernel, dir)), c, r);
    if dir.is_product() {
        first * second
    } else {
        first
    }
}

/// The operator's values, row by row: one per pixel of the image.
pub open spec fn derivative(image: Grid, kernel: Kernel, dir: KernelDir) -> Seq<int> {
    Seq::new(
        (image.width * image.height) as nat,
        |i: int| derivative_at(image, kernel, dir, i % image.width, i / image.width),
    )
}

/// The operator's grid holds its value at `(c, r)` at index `c + r * width`.
pub proof fn lemma_derivative_at(image: Grid, kernel: Kernel, dir: KernelDir, c: int, r: int)
    requires
        image.wf(),
        0 <= c < image.width,
        0 <= r < image.height,
    ensures
        0 <= c + r * image.width < derivative(image, kernel, dir).len(),
        derivative(image, kernel, dir)[c + r * image.width] == derivative_at(
            image,
            kernel,
            dir,
            c,
            r,
        ),
{
    lemma_cell_index(c, r, image.width, image.height);
}

/// Every weight of both kernels lies within the kernel's peak.
pub proof fn lemma_table_peak(kernel: Kernel, dir: KernelDir)
    ensures
        first_table(kernel, dir).len() == kernel.spec_size() * kernel.spec_size(),
        second_table(kernel, dir).len() == kernel.spec_size() * kernel.spec_size(),
        forall|i: int|
            0 <= i < first_table(kernel, dir).len() ==> -kernel.spec_peak() <= #[trigger] first_table(
                kernel,
                dir,
            )[i] <= kernel.spec_peak(),
        forall|i: int|
            0 <= i < second_table(kernel, dir).len() ==> -kernel.spec_peak()
                <= #[trigger] second_table(kernel, dir)[i] <= kernel.spec_peak(),
{
}

/// The derivative operator, set up with the size of its kernels.
#[derive(Debug)]
pub struct Sobel {
    kernel: Kernel,
}

impl Sobel {
    /// The size of the kernels that the operator applies.
    pub closed spec fn spec_kernel(&self) -> Kernel {
        self.kernel
    }

    /// An operator with three-by-three kernels.
    pub fn new() -> (sobel: Self)
        ensures
            sobel.spec_kernel() == Kernel::X3,
    {
        Self { kernel: Kernel::X3 }
    }

    /// The same operator with kernels of the given size.
    pub fn kernel(self, kernel: Kernel) -> (sobel: Self)
        ensures
            sobel.spec_kernel() == kernel,
    {
        Self { kernel }
    }

    /// Applies the operator to every pixel of the image. The result has one
    /// entry per pixel, in row-major order. For `X` and `Y` it is the
    /// response of the one kernel over the clamped window around the pixel;
    /// for `XX`, `YY` and `XY` it is the product of the two responses at
    /// that pixel.
    pub fn apply<T: ImagePixel>(
        &self,
        image: &[T],
        width: usize,
        height: usize,
        kernel_dir: KernelDir,
    ) -> (buf: Vec<i128>)
        requires
            image.len() == width * height,
        ensures
            buf.len() == width * height,
            values(buf@) == derivative(
                sample_grid(image@, width as int, height as int),
                self.spec_kernel(),
                kernel_dir,
            ),
    {
        let kernel_a = match kernel_dir {
            KernelDir::X => self.kernel.x(),
            KernelDir::Y => self.kernel.y(),
            KernelDir::XX => self.kernel.x(),
            KernelDir::YY => self.kernel.y(),
            KernelDir::XY => self.kernel.x(),
        };
        let kernel_b = match kernel_dir {
            KernelDir::X => self.kernel.x(),
            KernelDir::Y => self.kernel.y(),
            KernelDir::XX => self.kernel.x(),
            KernelDir::YY => self.kernel.y(),
            KernelDir::XY => self.kernel.y(),
        };
        let product = match kernel_dir {
            KernelDir::X => false,
            KernelDir::Y => false,
            KernelDir::XX => true,
            KernelDir::YY => true,
            KernelDir::XY => true,
        };
        let ksize = self.kernel.size();
        let ghost grid = sample_grid(image@, width as int, height as int);
        let ghost expected = derivative(grid, self.kernel, kernel_dir);
        proof {
            lemma_table_peak(self.kernel, kernel_dir);
        }
        let mut buf: Vec<i128> = Vec::new();
        let mut r: usize = 0;
        while r < height
            invariant
                image.len() == width * height,
                grid == sample_grid(image@, width as int, height as int),
                expected == derivative(grid, self.kernel, kernel_dir),
                samples(kernel_a@) == first_table(self.kernel, kernel_dir),
                samples(kernel_b@) == second_table(self.kernel, kernel_dir),
                product == kernel_dir.is_product(),
                ksize == self.kernel.spec_size(),
                r <= height,
                buf.len() == r * width,
                forall|i: int| 0 <= i < buf.len() ==> buf[i] as int == #[trigger] expected[i],
            decreases height - r,
        {
            let mut c: usize = 0;
            while c < width
                invariant
                    image.len() == width * height,
                    grid == sample_grid(image@, width as int, height as int),
                    expected == derivative(grid, self.kernel, kernel_dir),
                    samples(kernel_a@) == first_table(self.kernel, kernel_dir),
                    samples(kernel_b@) == second_table(self.kernel, kernel_dir),
                    product == kernel_dir.is_product(),
                    ksize == self.kernel.spec_size(),
                    r < height,
                    c <= width,
                    buf.len() == r * width + c,
                    forall|i: int| 0 <= i < buf.len() ==> buf[i] as int == #[trigger] expected[i],
                decreases width - c,
            {
                proof {
                    lemma_table_peak(self.kernel, kernel_dir);
                    lemma_cell_index(c as int, r as int, width as int, height as int);
                    assert(c + r * width == r * width + c) by (nonlinear_arith);
                    assert(expected[r * width + c] == derivative_at(
                        grid,
                        self.kernel,
                        kernel_dir,
                        c as int,
                        r as int,
                    ));
                    assert forall|i: int| 0 <= i < grid.cells.len() implies -0x8000_0000
                        <= #[trigger] grid.cells[i] <= 0x8000_0000 by {}
                    lemma_response_bounded(
                        grid,
                        table_grid(self.kernel, samples(kernel_a@)),
                        0x8000_0000,
                        self.kernel.spec_peak(),
                        c as int,
                        r as int,
                    );
                    lemma_response_bounded(
                        grid,
                        table_grid(self.kernel, samples(kernel_b@)),
                        0x8000_0000,
                        self.kernel.spec_peak(),
                        c as int,
                        r as int,
                    );
                }
                let val_a = window_response(
                    image,
                    width,
                    height,
                    kernel_a.as_slice(),
                    ksize,
                    ksize,
                    c,
                    r,
                );
                let val = if product {
                    let val_b = window_response(
                        image,
                        width,
                        height,
                        kernel_b.as_slice(),
                        ksize,
                        ksize,
                        c,
                        r,
                    );
                    assert(-0x4000_0000_0000_0000_0000 <= val_a * val_b
                        <= 0x4000_0000_0000_0000_0000) by (nonlinear_arith)
                        requires
                            -0x32_0000_0000 <= val_a <= 0x32_0000_0000,
                            -0x32_0000_0000 <= val_b <= 0x32_0000_0000,
                    ;
                    val_a * val_b
                } else {
                    val_a
                };
                buf.push(val);
                c = c + 1;
            }
            proof {
                assert((r + 1) * width == r * width + width) by (nonlinear_arith);
            }
            r = r + 1;
        }
        proof {
            assert(r * width == width * height) by (nonlinear_arith)
                requires
                    r == height,
            ;
            assert(values(buf@) =~= expected);
        }
        buf
    }
}

impl Default for Sobel {
    fn default() -> (sobel: Self)
        ensures
            sobel.spec_kernel() == Kernel::X3,
    {
        Self::new()
    }
}

/// The squared directions are nowhere negative: every value that the
/// operator gives for `XX` or `YY` is at least zero.
pub proof fn lemma_squares_nonnegative(image: Grid, kernel: Kernel, dir: KernelDir, i: int)
    requires
        dir is XX || dir is YY,
        0 <= i < derivative(image, kernel, dir).len(),
    ensures
        0 <= derivative(image, kernel, dir)[i],
{
    let c = i % image.width;
    let r = i / image.width;
    let first = response_at(image, table_grid(kernel, first_table(kernel, dir)), c, r);
    assert(0 <= first * first) by (nonlinear_arith);
}

/// The kernel along X changes sign when mirrored from left to right, the
/// kernel along Y when mirrored from top to bottom.
pub proof fn lemma_tables_antisymmetric(kernel: Kernel)
    ensures
        mirror_x(table_grid(kernel, kernel.spec_x()), -1),
        mirror_y(table_grid(kernel, kernel.spec_y()), -1),
{
    let gx = table_grid(kernel, kernel.spec_x());
    let gy = table_grid(kernel, kernel.spec_y());
    let n = kernel.spec_size();
    assert forall|x: int, y: int| 0 <= x < n && 0 <= y < n implies #[trigger] gx.at(x, y) == -1
        * gx.at(n - 1 - x, y) by {
        lemma_cell_index(x, y, n, n);
        lemma_cell_index(n - 1 - x, y, n, n);
    }
    assert forall|x: int, y: int| 0 <= x < n && 0 <= y < n implies #[trigger] gy.at(x, y) == -1
        * gy.at(x, n - 1 - y) by {
        lemma_cell_index(x, y, n, n);
        lemma_cell_index(x, n - 1 - y, n, n);
    }
}

/// Derivative antisymmetry along X. On an image that is its own mirror
/// image from left to right, the derivative along X at a pixel is the
/// negative of the derivative at the pixel opposite it in its row.
pub proof fn lemma_x_derivative_antisymmetric(image: Grid, kernel: Kernel, c: int, r: int)
    requires
        image.wf(),
        0 <= c < image.width,
        0 <= r < image.height,
        mirror_x(image, 1),
    ensures
        derivative_at(image, kernel, KernelDir::X, c, r) == -derivative_at(
            image,
            kernel,
            KernelDir::X,
            image.width - 1 - c,
            r,
        ),
{
    lemma_tables_antisymmetric(kernel);
    lemma_table_peak(kernel, KernelDir::X);
    lemma_mirror_x(image, table_grid(kernel, kernel.spec_x()), -1, c, r);
}

/// Derivative antisymmetry along Y. On an image that is its own mirror
/// image from top to bottom, the derivative along Y at a pixel is the
/// negative of the derivative at the pixel opposite it in its column.
pub proof fn lemma_y_derivative_antisymmetric(image: Grid, kernel: Kernel, c: int, r: int)
    requires
        image.wf(),
        0 <= c < image.width,
        0 <= r < image.height,
        mirror_y(image, 1),
    ensures
        derivative_at(image, kernel, KernelDir::Y, c, r) == -derivative_at(
            image,
            kernel,
            KernelDir::Y,
            c,
            image.height - 1 - r,
        ),
{
    lemma_tables_antisymmetric(kernel);
    lemma_table_peak(kernel, KernelDir::Y);
    lemma_mirror_y(image, table_grid(kernel, kernel.spec_y()), -1, c, r);
}

} // verus!
