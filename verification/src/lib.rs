//! Harris corner detection on grayscale images, in exact integer arithmetic.
//!
//! An image is a flat sequence of samples in row-major order. The detector
//! smooths it, takes products of its derivatives along X and Y, sums them
//! over a neighbourhood into a structure tensor, scores every pixel, and
//! marks the pixels whose score exceeds a sixth of the greatest score.
//!
//! - [`filter`]: kernels of rational weights and the convolution engine.
//! - [`sobel`]: the derivative operator and its two pairs of fixed kernels.
//! - [`harris`]: the pipeline, its kernels, the score and the threshold.
//! - [`window`]: the clamped window that both engines sum over.
//! - [`sums`]: finite sums over intervals and rectangles.
//! - [`error`]: why an input is refused.

pub mod error;
pub mod filter;
pub mod harris;
pub mod sobel;
pub mod sums;
pub mod window;
